//! Bit-packed Connect Four position.
//!
//! Bit `7 * c + r` stands for row `r` of column `c`; rows 0 to 5 are on the
//! board and row 6 of each column is a guard that is never set.
use vstd::prelude::*;
use vstd::string::StringSliceAdditionalSpecFns;
use crate::board::{
    Board, board_after, board_code, lemma_board_after_prefix, board_ok, board_play, column_code, column_open, empty_board, lemma_pow3_add,
    lemma_pow3_mono, lemma_pow3_pos, lemma_stone_count_prefix, lemma_stone_count_seven, lemma_stone_count_take, lemma_stones_code_bound, mirror,
    pow3, stone_count, stones_code, symmetric_code,
};

verus! {

/// One bit at the bottom of each column.
pub const BOTTOM_MASK: u64 = 0x0408_1020_4081;

/// The 42 cells of the board.
pub const BOARD_MASK: u64 = 0xfdfb_f7ef_dfbf;

/// Whether bit `i` of `x` is set.
pub open spec fn bit(x: u64, i: u64) -> bool {
    (x >> i) & 1 == 1
}

/// The seven bits of column `c`.
pub open spec fn field(x: u64, c: u64) -> u64 {
    (x >> ((c * 7) as u64)) & 0x7f
}

/// Bit index of row `r` of column `c`.
pub open spec fn cell(c: int, r: int) -> u64 {
    (c * 7 + r) as u64
}

/// A column filled from the bottom up: its low bits are set, the rest clear.
pub open spec fn stacked(f: u64) -> bool {
    f == 0 || f == 1 || f == 3 || f == 7 || f == 15 || f == 31 || f == 63
}

/// Number of stones in a stacked column.
pub open spec fn stack_height(f: u64) -> u64 {
    if f == 0 {
        0
    } else if f == 1 {
        1
    } else if f == 3 {
        2
    } else if f == 7 {
        3
    } else if f == 15 {
        4
    } else if f == 31 {
        5
    } else {
        6
    }
}

/// Occupancy bits of a legal board: only board cells, each column stacked.
pub open spec fn mask_ok(m: u64) -> bool {
    &&& m & !BOARD_MASK == 0
    &&& m & ((m + BOTTOM_MASK) as u64) == 0
}

pub open spec fn total_height(m: u64) -> nat {
    (stack_height(field(m, 0)) + stack_height(field(m, 1)) + stack_height(field(m, 2))
        + stack_height(field(m, 3)) + stack_height(field(m, 4)) + stack_height(field(m, 5))
        + stack_height(field(m, 6))) as nat
}

proof fn lemma_fields(m: u64, p: u64, c: u64, r: u64)
    by (bit_vector)
    requires
        c < 7,
        r < 7,
    ensures
        mask_ok(m) ==> stacked(field(m, c)),
        bit(m, (c * 7 + r) as u64) == bit(field(m, c), r),
        field(p ^ m, c) == field(p, c) ^ field(m, c),
        field(0, c) == 0,
        field(m, c) < 128 && field(p, c) < 128,
        stacked(field(m, c)) ==> (bit(field(m, c), r) == (r < stack_height(field(m, c)))),
        (mask_ok(m) && p & !m == 0) ==> (p ^ m) & !m == 0,
        mask_ok(m) ==> ((m & (1u64 << ((c * 7 + 5) as u64)) == 0) == (field(m, c) != 63)),
{
}

proof fn lemma_play_mask(m: u64, p: u64, c: u64, d: u64)
    by (bit_vector)
    requires
        mask_ok(m),
        c < 7,
        d < 7,
        field(m, c) != 63,
    ensures
        mask_ok(m | ((m + (1u64 << ((c * 7) as u64))) as u64)),
        field(m | ((m + (1u64 << ((c * 7) as u64))) as u64), c) == field(m, c) * 2 + 1,
        d != c ==> field(m | ((m + (1u64 << ((c * 7) as u64))) as u64), d) == field(m, d),
        p & !m == 0 ==> (p ^ m) & !(m | ((m + (1u64 << ((c * 7) as u64))) as u64)) == 0,
        m < (m + (1u64 << ((c * 7) as u64))),
        (m + (1u64 << ((c * 7) as u64))) < 0x1_0000_0000_0000,
{
}

proof fn lemma_bits(p: u64, m: u64, i: u64)
    by (bit_vector)
    requires
        i < 64,
    ensures
        bit(p ^ m, i) == (bit(p, i) != bit(m, i)),
        (p & !m == 0 && bit(p, i)) ==> bit(m, i),
        bit(p & m, i) == (bit(p, i) && bit(m, i)),
        bit(p | m, i) == (bit(p, i) || bit(m, i)),
        bit(p & !m, i) == (bit(p, i) && !bit(m, i)),
        bit(0, i) == false,
{
}

proof fn lemma_column_bits(c: u64, i: u64)
    by (bit_vector)
    requires
        c < 7,
        i < 64,
    ensures
        bit(0x3fu64 << ((c * 7) as u64), i) == ((c * 7) as u64 <= i < (c * 7 + 6) as u64),
{
}

proof fn lemma_stack_height_step(f: u64)
    requires
        stacked(f),
        f != 63,
    ensures
        stacked((f * 2 + 1) as u64),
        stack_height((f * 2 + 1) as u64) == stack_height(f) + 1,
{
}

/// Whether `b` has a stone on the board cell at column `c`, row `r`.
pub open spec fn owns(b: u64, c: u64, r: u64) -> bool {
    c < 7 && r < 6 && bit(b, (c * 7 + r) as u64)
}

/// Stone of `b` `k` columns to the right (`fwd`) or left of (c, r), on the same row.
pub open spec fn owns_row(b: u64, c: u64, r: u64, k: u64, fwd: bool) -> bool {
    if fwd {
        owns(b, (c + k) as u64, r)
    } else {
        c >= k && owns(b, (c - k) as u64, r)
    }
}

/// Stone of `b` `k` steps up-right (`fwd`) or down-left of (c, r).
pub open spec fn owns_rising(b: u64, c: u64, r: u64, k: u64, fwd: bool) -> bool {
    if fwd {
        owns(b, (c + k) as u64, (r + k) as u64)
    } else {
        c >= k && r >= k && owns(b, (c - k) as u64, (r - k) as u64)
    }
}

/// Stone of `b` `k` steps down-right (`fwd`) or up-left of (c, r).
pub open spec fn owns_falling(b: u64, c: u64, r: u64, k: u64, fwd: bool) -> bool {
    if fwd {
        r >= k && owns(b, (c + k) as u64, (r - k) as u64)
    } else {
        c >= k && owns(b, (c - k) as u64, (r + k) as u64)
    }
}

/// A stone on (c, r) would join three stones of `b` below it in its column.
pub open spec fn completes_column(b: u64, c: u64, r: u64) -> bool {
    r >= 3 && owns(b, c, (r - 1) as u64) && owns(b, c, (r - 2) as u64) && owns(
        b,
        c,
        (r - 3) as u64,
    )
}

/// A stone on (c, r) would make four in a row horizontally with stones of `b`.
pub open spec fn completes_row(b: u64, c: u64, r: u64) -> bool {
    ||| owns_row(b, c, r, 3, false) && owns_row(b, c, r, 2, false) && owns_row(b, c, r, 1, false)
    ||| owns_row(b, c, r, 2, false) && owns_row(b, c, r, 1, false) && owns_row(b, c, r, 1, true)
    ||| owns_row(b, c, r, 1, false) && owns_row(b, c, r, 1, true) && owns_row(b, c, r, 2, true)
    ||| owns_row(b, c, r, 1, true) && owns_row(b, c, r, 2, true) && owns_row(b, c, r, 3, true)
}

/// A stone on (c, r) would make four on a rising diagonal with stones of `b`.
pub open spec fn completes_rising(b: u64, c: u64, r: u64) -> bool {
    ||| owns_rising(b, c, r, 3, false) && owns_rising(b, c, r, 2, false) && owns_rising(b, c, r, 1, false)
    ||| owns_rising(b, c, r, 2, false) && owns_rising(b, c, r, 1, false) && owns_rising(b, c, r, 1, true)
    ||| owns_rising(b, c, r, 1, false) && owns_rising(b, c, r, 1, true) && owns_rising(b, c, r, 2, true)
    ||| owns_rising(b, c, r, 1, true) && owns_rising(b, c, r, 2, true) && owns_rising(b, c, r, 3, true)
}

/// A stone on (c, r) would make four on a falling diagonal with stones of `b`.
pub open spec fn completes_falling(b: u64, c: u64, r: u64) -> bool {
    ||| owns_falling(b, c, r, 3, false) && owns_falling(b, c, r, 2, false) && owns_falling(b, c, r, 1, false)
    ||| owns_falling(b, c, r, 2, false) && owns_falling(b, c, r, 1, false) && owns_falling(b, c, r, 1, true)
    ||| owns_falling(b, c, r, 1, false) && owns_falling(b, c, r, 1, true) && owns_falling(b, c, r, 2, true)
    ||| owns_falling(b, c, r, 1, true) && owns_falling(b, c, r, 2, true) && owns_falling(b, c, r, 3, true)
}

/// A stone on (c, r) would give the owner of `b` four in a line.
pub open spec fn completes_line(b: u64, c: u64, r: u64) -> bool {
    completes_column(b, c, r) || completes_row(b, c, r) || completes_rising(b, c, r)
        || completes_falling(b, c, r)
}

/// Cells, as bits, that extend three stones of `b` spaced `s` bits apart.
pub open spec fn line_ends(b: u64, s: u64) -> u64 {
    ((b << s) & (b << (s * 2) as u64) & (b << (s * 3) as u64)) | ((b << s) & (b << (s * 2) as u64)
        & (b >> s)) | ((b >> s) & (b >> (s * 2) as u64) & (b << s)) | ((b >> s) & (b >> (s
        * 2) as u64) & (b >> (s * 3) as u64))
}

proof fn lemma_column_ends(b: u64, c: u64, r: u64)
    by (bit_vector)
    requires
        b & !BOARD_MASK == 0,
        c < 7,
        r < 6,
    ensures
        bit((b << 1u64) & (b << 2u64) & (b << 3u64), (c * 7 + r) as u64) == completes_column(b, c, r),
{
}

proof fn lemma_row_ends(b: u64, c: u64, r: u64)
    by (bit_vector)
    requires
        b & !BOARD_MASK == 0,
        c < 7,
        r < 6,
    ensures
        bit(line_ends(b, 7), (c * 7 + r) as u64) == completes_row(b, c, r),
{
}

proof fn lemma_rising_ends(b: u64, c: u64, r: u64)
    by (bit_vector)
    requires
        b & !BOARD_MASK == 0,
        c < 7,
        r < 6,
    ensures
        bit(line_ends(b, 8), (c * 7 + r) as u64) == completes_rising(b, c, r),
{
}

proof fn lemma_falling_ends(b: u64, c: u64, r: u64)
    by (bit_vector)
    requires
        b & !BOARD_MASK == 0,
        c < 7,
        r < 6,
    ensures
        bit(line_ends(b, 6), (c * 7 + r) as u64) == completes_falling(b, c, r),
{
}

proof fn lemma_cell_bits(x: u64, y: u64, m: u64, c: u64, r: u64)
    by (bit_vector)
    requires
        c < 7,
        r < 6,
    ensures
        bit(BOARD_MASK, (c * 7 + r) as u64),
        bit(BOARD_MASK ^ m, (c * 7 + r) as u64) == !bit(m, (c * 7 + r) as u64),
        x & !BOARD_MASK == 0 ==> !bit(x, (c * 7 + 6) as u64),
        bit(x & !(y >> 1u64), (c * 7 + r) as u64) == (bit(x, (c * 7 + r) as u64) && !bit(
            y,
            (c * 7 + r + 1) as u64,
        )),
        x & !BOARD_MASK == 0 ==> (x & y) & !BOARD_MASK == 0,
        (x & !BOARD_MASK == 0) ==> (x & !(y >> 1u64)) & !BOARD_MASK == 0,
        (x & !BOARD_MASK == 0) ==> (y & (BOARD_MASK ^ x)) & !BOARD_MASK == 0,
        (x & !BOARD_MASK == 0 && y & !x == 0) ==> y & !BOARD_MASK == 0,
        (x & !BOARD_MASK == 0) ==> (x | (1u64 << ((c * 7 + r) as u64))) & !BOARD_MASK == 0,
        (x & !BOARD_MASK == 0 && y & !BOARD_MASK == 0) ==> (x ^ y) & !BOARD_MASK == 0,
{
}

proof fn lemma_possible_bits(m: u64, c: u64, r: u64)
    by (bit_vector)
    requires
        mask_ok(m),
        c < 7,
        r < 6,
    ensures
        m + BOTTOM_MASK < 0x1_0000_0000_0000_0000,
        bit(((m + BOTTOM_MASK) as u64) & BOARD_MASK, (c * 7 + r) as u64) == (r == stack_height(
            field(m, c),
        )),
        (((m + BOTTOM_MASK) as u64) & BOARD_MASK) & !BOARD_MASK == 0,
{
}

proof fn lemma_combine_bits(v: u64, h: u64, d: u64, e: u64, m: u64, i: u64)
    by (bit_vector)
    requires
        i < 64,
    ensures
        bit((v | h | d | e) & (BOARD_MASK ^ m), i) == ((bit(v, i) || bit(h, i) || bit(d, i) || bit(
            e,
            i,
        )) && bit(BOARD_MASK ^ m, i)),
{
}

proof fn lemma_zero_fields(x: u64, c: u64)
    by (bit_vector)
    requires
        x & !BOARD_MASK == 0,
        c < 7,
    ensures
        x == 0 <==> (field(x, 0) == 0 && field(x, 1) == 0 && field(x, 2) == 0 && field(x, 3) == 0
            && field(x, 4) == 0 && field(x, 5) == 0 && field(x, 6) == 0),
        field(x, c) != 0 ==> (bit(x, (c * 7) as u64) || bit(x, (c * 7 + 1) as u64) || bit(
            x,
            (c * 7 + 2) as u64,
        ) || bit(x, (c * 7 + 3) as u64) || bit(x, (c * 7 + 4) as u64) || bit(x, (c * 7 + 5) as u64)),
{
}

proof fn lemma_two_bits(x: u64, c1: u64, r1: u64, c2: u64, r2: u64)
    by (bit_vector)
    requires
        c1 < 7,
        r1 < 6,
        c2 < 7,
        r2 < 6,
    ensures
        (bit(x, (c1 * 7 + r1) as u64) && bit(x, (c2 * 7 + r2) as u64) && (c1 != c2 || r1 != r2))
            ==> x & ((x - 1) as u64) != 0,
        x & !BOARD_MASK == 0 ==> (x & ((x - 1) as u64)) & !BOARD_MASK == 0,
        x & !BOARD_MASK == 0 ==> (x ^ (x & ((x - 1) as u64))) & !BOARD_MASK == 0,
        x != 0 ==> x ^ (x & ((x - 1) as u64)) != 0,
        bit(x & ((x - 1) as u64), (c1 * 7 + r1) as u64) ==> bit(x, (c1 * 7 + r1) as u64),
        bit(x ^ (x & ((x - 1) as u64)), (c2 * 7 + r2) as u64) ==> (bit(x, (c2 * 7 + r2) as u64)
            && !bit(x & ((x - 1) as u64), (c2 * 7 + r2) as u64)),
        bit(x, (c1 * 7 + r1) as u64) ==> x != 0,
{
}

proof fn lemma_in_column(col: u64, c: u64, r: u64)
    by (bit_vector)
    requires
        col < 7,
        c < 7,
        r < 6,
    ensures
        ((col * 7) as u64 <= (c * 7 + r) as u64 && ((c * 7 + r) as u64) < ((col * 7 + 6) as u64)) == (c
            == col),
{
}

/// Number of set bits among the `n` lowest bits of `x`.
pub open spec fn bits_below(x: u64, n: nat) -> nat
    decreases n,
{
    if n == 0 {
        0
    } else {
        bits_below(x, (n - 1) as nat) + if bit(x, (n - 1) as u64) {
            1nat
        } else {
            0nat
        }
    }
}

/// Number of set bits of `x`.
pub open spec fn bit_count(x: u64) -> nat {
    bits_below(x, 64)
}

/// Number of set bits of `x`.
fn count_ones(x: u64) -> (r: u32)
    ensures
        r == bit_count(x),
{
    let mut r: u32 = 0;
    let mut i: u64 = 0;
    while i < 64
        invariant
            i <= 64,
            r == bits_below(x, i as nat),
            r <= i,
        decreases 64 - i,
    {
        if (x >> i) & 1 == 1 {
            r = r + 1;
        }
        i = i + 1;
    }
    r
}

/// A set of board cells is empty exactly when none of its cells is set.
proof fn lemma_cells_of(x: u64)
    requires
        x & !BOARD_MASK == 0,
    ensures
        x != 0 <==> exists|c: u64, r: u64| c < 7 && r < 6 && #[trigger] bit(x, (c * 7 + r) as u64),
{
    if x != 0 {
        lemma_zero_fields(x, 0);
        let c: u64 = if field(x, 0) != 0 {
            0
        } else if field(x, 1) != 0 {
            1
        } else if field(x, 2) != 0 {
            2
        } else if field(x, 3) != 0 {
            3
        } else if field(x, 4) != 0 {
            4
        } else if field(x, 5) != 0 {
            5
        } else {
            6
        };
        lemma_zero_fields(x, c);
        let r: u64 = if bit(x, (c * 7) as u64) {
            0
        } else if bit(x, (c * 7 + 1) as u64) {
            1
        } else if bit(x, (c * 7 + 2) as u64) {
            2
        } else if bit(x, (c * 7 + 3) as u64) {
            3
        } else if bit(x, (c * 7 + 4) as u64) {
            4
        } else {
            5
        };
        assert(bit(x, (c * 7 + r) as u64));
    }
    assert forall|c: u64, r: u64| c < 7 && r < 6 && #[trigger] bit(x, (c * 7 + r) as u64) implies x != 0 by {
        lemma_two_bits(x, c, r, c, r);
    }
}

/// A set of board cells holds two cells or more exactly when clearing its
/// lowest bit leaves some bit set.
proof fn lemma_two_cells(x: u64)
    requires
        x & !BOARD_MASK == 0,
    ensures
        (x & ((x - 1) as u64) != 0) <==> exists|c1: u64, r1: u64, c2: u64, r2: u64|
            c1 < 7 && r1 < 6 && c2 < 7 && r2 < 6 && (c1 != c2 || r1 != r2) && #[trigger] bit(
                x,
                (c1 * 7 + r1) as u64,
            ) && #[trigger] bit(x, (c2 * 7 + r2) as u64),
{
    let y = x & ((x - 1) as u64);
    if y != 0 {
        lemma_two_bits(x, 0, 0, 0, 0);
        lemma_cells_of(y);
        let (c1, r1) = choose|c1: u64, r1: u64| c1 < 7 && r1 < 6 && #[trigger] bit(y, (c1 * 7 + r1) as u64);
        lemma_two_bits(x, c1, r1, 0, 0);
        assert(x != 0);
        let z = x ^ y;
        lemma_cells_of(z);
        let (c2, r2) = choose|c2: u64, r2: u64| c2 < 7 && r2 < 6 && #[trigger] bit(z, (c2 * 7 + r2) as u64);
        lemma_two_bits(x, c1, r1, c2, r2);
        assert(c1 != c2 || r1 != r2);
    }
    assert forall|c1: u64, r1: u64, c2: u64, r2: u64|
        c1 < 7 && r1 < 6 && c2 < 7 && r2 < 6 && (c1 != c2 || r1 != r2) && #[trigger] bit(
            x,
            (c1 * 7 + r1) as u64,
        ) && #[trigger] bit(x, (c2 * 7 + r2) as u64) implies y != 0 by {
        lemma_two_bits(x, c1, r1, c2, r2);
    }
}

/// A move that cannot be played: the column is full or is not a column of
/// the board. `index` is its place in the sequence of moves given.
#[derive(Clone, Copy, Debug, PartialEq, Eq)]
pub struct InvalidMove {
    pub index: usize,
}

/// Columns named by the digits `1` to `7` of `s`, as column indices 0 to 6.
pub open spec fn digit_columns(s: Seq<u8>) -> Seq<int> {
    Seq::new(s.len(), |i: int| s[i] as int - 49)
}

pub open spec fn usize_columns(s: Seq<usize>) -> Seq<int> {
    Seq::new(s.len(), |i: int| s[i] as int)
}

/// `moves[index]` is the first move of `moves` that cannot be played from `b`.
pub open spec fn first_invalid(b: Board, moves: Seq<int>, index: int) -> bool {
    &&& 0 <= index < moves.len()
    &&& board_after(b, moves.take(index)) is Some
    &&& !column_open(board_after(b, moves.take(index))->0, moves[index])
}

proof fn lemma_equal_fields(x: u64, y: u64, f: u64, g: u64)
    by (bit_vector)
    ensures
        (f < 128 && g < 128 && bit(f, 0) == bit(g, 0) && bit(f, 1) == bit(g, 1) && bit(f, 2) == bit(g, 2)
            && bit(f, 3) == bit(g, 3) && bit(f, 4) == bit(g, 4) && bit(f, 5) == bit(g, 5) && bit(f, 6)
            == bit(g, 6)) ==> f == g,
        (x & !BOARD_MASK == 0 && y & !BOARD_MASK == 0 && field(x, 0) == field(y, 0) && field(x, 1)
            == field(y, 1) && field(x, 2) == field(y, 2) && field(x, 3) == field(y, 3) && field(x, 4)
            == field(y, 4) && field(x, 5) == field(y, 5) && field(x, 6) == field(y, 6)) ==> x == y,
        field(x, 0) < 128 && field(x, 1) < 128 && field(x, 2) < 128 && field(x, 3) < 128 && field(x, 4) < 128
            && field(x, 5) < 128 && field(x, 6) < 128,
{
}

proof fn lemma_key_bits(p1: u64, m1: u64, p2: u64, m2: u64)
    by (bit_vector)
    requires
        mask_ok(m1),
        mask_ok(m2),
        p1 & !m1 == 0,
        p2 & !m2 == 0,
        p1 + m1 == p2 + m2,
    ensures
        p1 == p2,
        m1 == m2,
{
}

/// Stones of `b2` are those of `b` seen in a mirror.
pub open spec fn mirrored_bits(b: u64, b2: u64) -> bool {
    forall|x: u64, y: u64|
        x < 7 && y < 6 ==> #[trigger] bit(b2, (x * 7 + y) as u64) == bit(b, ((6 - x) * 7 + y) as u64)
}

proof fn lemma_mirror_owns(b: u64, b2: u64, x: int, y: int)
    requires
        mirrored_bits(b, b2),
        0 <= x <= 12,
        0 <= y <= 12,
    ensures
        x < 7 ==> owns(b2, x as u64, y as u64) == owns(b, (6 - x) as u64, y as u64),
        x >= 7 ==> !owns(b2, x as u64, y as u64),
{
    if x < 7 && y < 6 {
        assert(bit(b2, ((x as u64) * 7 + (y as u64)) as u64) == bit(b, ((6 - (x as u64)) * 7 + (y as u64)) as u64));
    }
}

/// Lines read the same in a mirror: rows run the other way, and rising and
/// falling diagonals trade places.
pub proof fn lemma_mirror_lines(b: u64, b2: u64, c: u64, r: u64)
    requires
        mirrored_bits(b, b2),
        c < 7,
        r < 6,
    ensures
        completes_line(b2, c, r) == completes_line(b, (6 - c) as u64, r),
{
    lemma_mirror_step(b, b2, c, r, 1);
    lemma_mirror_step(b, b2, c, r, 2);
    lemma_mirror_step(b, b2, c, r, 3);
}

proof fn lemma_mirror_step(b: u64, b2: u64, c: u64, r: u64, k: u64)
    requires
        mirrored_bits(b, b2),
        c < 7,
        r < 6,
        1 <= k <= 3,
    ensures
        owns_row(b2, c, r, k, true) == owns_row(b, (6 - c) as u64, r, k, false),
        owns_row(b2, c, r, k, false) == owns_row(b, (6 - c) as u64, r, k, true),
        owns_rising(b2, c, r, k, true) == owns_falling(b, (6 - c) as u64, r, k, false),
        owns_rising(b2, c, r, k, false) == owns_falling(b, (6 - c) as u64, r, k, true),
        owns_falling(b2, c, r, k, true) == owns_rising(b, (6 - c) as u64, r, k, false),
        owns_falling(b2, c, r, k, false) == owns_rising(b, (6 - c) as u64, r, k, true),
        r >= k ==> owns(b2, c, (r - k) as u64) == owns(b, (6 - c) as u64, (r - k) as u64),
{
    let ci = c as int;
    let ri = r as int;
    let ki = k as int;
    lemma_mirror_owns(b, b2, ci + ki, ri);
    lemma_mirror_owns(b, b2, ci + ki, ri + ki);
    if ri >= ki {
        lemma_mirror_owns(b, b2, ci + ki, ri - ki);
        lemma_mirror_owns(b, b2, ci, ri - ki);
    }
    if ci >= ki {
        lemma_mirror_owns(b, b2, ci - ki, ri);
        lemma_mirror_owns(b, b2, ci - ki, ri + ki);
        if ri >= ki {
            lemma_mirror_owns(b, b2, ci - ki, ri - ki);
        }
    }
}

#[derive(Clone, Copy)]
pub struct Position {
    /// Stones of the side to move.
    position: u64,
    /// All stones on the board.
    mask: u64,
    /// Number of stones played.
    moves: usize,
}

impl Default for Position {
    fn default() -> (r: Position)
        ensures
            r.wf(),
            r@ == empty_board(),
            r.spec_n_moves() == 0,
    {
        Position::new()
    }
}

impl View for Position {
    type V = Board;

    closed spec fn view(&self) -> Board {
        Seq::new(
            7,
            |c: int|
                Seq::new(
                    stack_height(field(self.mask, c as u64)) as nat,
                    |r: int| bit(self.position, cell(c, r)),
                ),
        )
    }
}

impl Position {
    pub const WIDTH: usize = 7;

    pub const HEIGHT: usize = 6;

    pub const AREA: usize = 42;

    /// Stones of the side to move, as bits.
    pub closed spec fn own_bits(self) -> u64 {
        self.position
    }

    /// All stones, as bits.
    pub closed spec fn occupied_bits(self) -> u64 {
        self.mask
    }

    pub closed spec fn spec_n_moves(self) -> nat {
        self.moves as nat
    }

    pub closed spec fn wf(self) -> bool {
        &&& mask_ok(self.mask)
        &&& self.position & !self.mask == 0
        &&& self.moves == total_height(self.mask)
    }

    pub open spec fn height(self, c: int) -> nat {
        self@[c].len()
    }

    pub open spec fn spec_remaining_moves(self) -> int {
        42 - self.spec_n_moves()
    }

    /// The empty board.
    pub fn new() -> (r: Position)
        ensures
            r.wf(),
            r@ == empty_board(),
            r.spec_n_moves() == 0,
    {
        let r = Position { position: 0, mask: 0, moves: 0 };
        proof {
            assert(mask_ok(0u64)) by (bit_vector);
            assert(0u64 & !0u64 == 0) by (bit_vector);
            assert forall|c: u64| c < 7 implies field(0, c) == 0 by {
                lemma_fields(0, 0, c, 0);
            }
            assert forall|c: int| 0 <= c < 7 implies #[trigger] r@[c] =~= empty_board()[c] by {
                lemma_fields(0, 0, c as u64, 0);
            }
            assert(r@ =~= empty_board());
        }
        r
    }

    pub open spec fn spec_top_mask(col: int) -> u64 {
        1u64 << cell(col, 5)
    }

    pub open spec fn spec_bottom_mask(col: int) -> u64 {
        1u64 << cell(col, 0)
    }

    pub open spec fn spec_column_mask(col: int) -> u64 {
        0x3fu64 << cell(col, 0)
    }

    /// The bit of the top cell of a column.
    fn top_mask(col: usize) -> (r: u64)
        requires
            col < 7,
        ensures
            r == Self::spec_top_mask(col as int),
    {
        1u64 << (col * 7 + 5) as u64
    }

    /// The bit of the bottom cell of a column.
    fn bottom_mask(col: usize) -> (r: u64)
        requires
            col < 7,
        ensures
            r == Self::spec_bottom_mask(col as int),
    {
        1u64 << (col * 7) as u64
    }

    /// The six board cells of a column.
    pub fn column_mask(col: usize) -> (r: u64)
        requires
            col < 7,
        ensures
            r == Self::spec_column_mask(col as int),
            forall|i: u64| i < 64 ==> (bit(r, i) == (cell(col as int, 0) <= i < cell(col as int, 6))),
    {
        let r = 0x3fu64 << (col * 7) as u64;
        proof {
            assert forall|i: u64| i < 64 implies (bit(r, i) == (cell(col as int, 0) <= i < cell(col as int, 6))) by {
                lemma_column_bits(col as u64, i);
            }
        }
        r
    }

    /// Whether a stone can still be dropped in column `col`.
    pub fn can_play(&self, col: usize) -> (r: bool)
        requires
            self.wf(),
        ensures
            r == column_open(self@, col as int),
    {
        if col >= 7 {
            return false;
        }
        proof {
            lemma_fields(self.mask, 0, col as u64, 0);
        }
        self.mask & Self::top_mask(col) == 0
    }

    /// The position after a stone of the side to move drops in column `col`.
    pub closed spec fn spec_played(self, col: int) -> Position {
        Position {
            position: self.position ^ self.mask,
            mask: self.mask | ((self.mask + (1u64 << ((col as u64 * 7) as u64))) as u64),
            moves: (self.moves + 1) as usize,
        }
    }

    /// Playing a legal move keeps the position well formed and adds one stone.
    pub proof fn lemma_spec_played(self, col: int)
        requires
            self.wf(),
            column_open(self@, col),
        ensures
            self.spec_played(col).wf(),
            self.spec_played(col)@ == board_play(self@, col),
            self.spec_played(col).spec_n_moves() == self.spec_n_moves() + 1,
    {
        self.lemma_view();
        Self::lemma_play(self, self.spec_played(col), col as usize);
    }

    /// Drops a stone of the side to move in column `col`; the opponent then
    /// becomes the side to move.
    pub fn play(&mut self, col: usize)
        requires
            old(self).wf(),
            column_open(old(self)@, col as int),
        ensures
            final(self).wf(),
            *final(self) == old(self).spec_played(col as int),
            final(self)@ == board_play(old(self)@, col as int),
            final(self).spec_n_moves() == old(self).spec_n_moves() + 1,
    {
        let ghost m = self.mask;
        let ghost p = self.position;
        proof {
            lemma_fields(m, 0, col as u64, 0);
            self.lemma_view();
        }
        let bottom = Self::bottom_mask(col);
        proof {
            assert(bottom == 1u64 << ((col as u64 * 7) as u64));
            lemma_play_mask(m, p, col as u64, 0);
        }
        self.position = self.position ^ self.mask;
        self.mask = self.mask | (self.mask + bottom);
        self.moves = self.moves + 1;
        proof {
            Self::lemma_play(*old(self), *self, col);
        }
    }

    proof fn lemma_play_wf(a: Position, b: Position, col: usize)
        requires
            a.wf(),
            column_open(a@, col as int),
            b.position == a.position ^ a.mask,
            b.mask == a.mask | ((a.mask + (1u64 << ((col as u64 * 7) as u64))) as u64),
            b.moves == a.moves + 1,
        ensures
            b.wf(),
            forall|d: u64| d < 7 ==> stacked(#[trigger] field(b.mask, d)) && (d != col ==> field(b.mask, d) == field(a.mask, d)),
            stack_height(field(b.mask, col as u64)) == stack_height(field(a.mask, col as u64)) + 1,
    {
        let m = a.mask;
        let p = a.position;
        let m2 = b.mask;
        let c = col as u64;
        lemma_fields(m, p, c, 0);
        assert(a@[col as int].len() == stack_height(field(m, c)));
        lemma_stack_height_step(field(m, c));
        assert forall|d: u64| d < 7 implies stacked(#[trigger] field(m2, d)) && (d != c ==> field(m2, d) == field(m, d)) by {
            lemma_play_mask(m, p, c, d);
            lemma_fields(m, 0, d, 0);
        }
        lemma_play_mask(m, p, c, 0);
        assert(field(m2, 0) == field(m, 0) || c == 0);
        assert(field(m2, 1) == field(m, 1) || c == 1);
        assert(field(m2, 2) == field(m, 2) || c == 2);
        assert(field(m2, 3) == field(m, 3) || c == 3);
        assert(field(m2, 4) == field(m, 4) || c == 4);
        assert(field(m2, 5) == field(m, 5) || c == 5);
        assert(field(m2, 6) == field(m, 6) || c == 6);
        assert(b.moves == total_height(m2));
    }

    proof fn lemma_play(a: Position, b: Position, col: usize)
        requires
            a.wf(),
            column_open(a@, col as int),
            b.position == a.position ^ a.mask,
            b.mask == a.mask | ((a.mask + (1u64 << ((col as u64 * 7) as u64))) as u64),
            b.moves == a.moves + 1,
        ensures
            b.wf(),
            b@ == board_play(a@, col as int),
    {
        Self::lemma_play_wf(a, b, col);
        a.lemma_view();
        b.lemma_view();
        let p = a.position;
        let m = a.mask;
        let ob = a@;
        let nb = b@;
        let eb = board_play(ob, col as int);
        assert forall|d: int| 0 <= d < 7 implies #[trigger] nb[d] =~= eb[d] by {
            assert(field(b.mask, d as u64) == field(b.mask, d as u64));
            assert(nb[d].len() == eb[d].len());
            assert forall|r: int| 0 <= r < nb[d].len() implies nb[d][r] == eb[d][r] by {
                lemma_bits(p, m, cell(d, r));
                assert(bit(m, cell(d, r)) == (r < ob[d].len()));
            }
        }
        assert(nb =~= eb);
    }

    /// The position after playing column `col`, leaving `self` unchanged.
    pub fn played(&self, col: usize) -> (r: Position)
        requires
            self.wf(),
            column_open(self@, col as int),
        ensures
            r.wf(),
            r == self.spec_played(col as int),
            r@ == board_play(self@, col as int),
            r.spec_n_moves() == self.spec_n_moves() + 1,
    {
        let mut new = *self;
        new.play(col);
        new
    }

    /// Number of stones played so far.
    pub fn n_moves(&self) -> (r: usize)
        requires
            self.wf(),
        ensures
            r == self.spec_n_moves(),
            r == stone_count(self@),
            r <= 42,
    {
        proof {
            self.lemma_view();
        }
        self.moves
    }

    /// Number of empty cells.
    pub fn remaining_moves(&self) -> (r: usize)
        requires
            self.wf(),
        ensures
            r == self.spec_remaining_moves(),
            r == 42 - stone_count(self@),
    {
        proof {
            self.lemma_view();
        }
        Self::AREA - self.moves
    }


    /// Stones of the opponent, as bits.
    pub open spec fn opponent_bits(self) -> u64 {
        self.own_bits() ^ self.occupied_bits()
    }

    /// The side to move wins at once by playing column `c`.
    pub open spec fn winning_column(self, c: int) -> bool {
        0 <= c < 7 && self.height(c) < 6 && completes_line(
            self.own_bits(),
            c as u64,
            self.height(c) as u64,
        )
    }

    /// The opponent would win at once by playing column `c`.
    pub open spec fn threatened_column(self, c: int) -> bool {
        0 <= c < 7 && self.height(c) < 6 && completes_line(
            self.opponent_bits(),
            c as u64,
            self.height(c) as u64,
        )
    }

    pub open spec fn spec_can_win_next(self) -> bool {
        exists|c: int| #[trigger] self.winning_column(c)
    }

    pub open spec fn any_threat(self) -> bool {
        exists|c: int| #[trigger] self.threatened_column(c)
    }

    /// The opponent threatens to win in two different columns.
    pub open spec fn double_threat(self) -> bool {
        exists|c1: int, c2: int|
            c1 != c2 && #[trigger] self.threatened_column(c1) && #[trigger] self.threatened_column(c2)
    }

    /// Stone bits lie on the board, and occupied cells are those below each column's height.
    pub proof fn lemma_bits_on_board(self)
        requires
            self.wf(),
        ensures
            self.own_bits() & !BOARD_MASK == 0,
            self.occupied_bits() & !BOARD_MASK == 0,
            self.opponent_bits() & !BOARD_MASK == 0,
            self.opponent_bits() & !self.occupied_bits() == 0,
            board_ok(self@),
            stone_count(self@) == self.spec_n_moves(),
            self.spec_n_moves() <= 42,
            forall|c: u64, r: u64|
                c < 7 && r < 6 ==> (#[trigger] bit(self.occupied_bits(), (c * 7 + r) as u64) == (r
                    < self.height(c as int))),
    {
        self.lemma_view();
        lemma_cell_bits(self.mask, self.position, 0, 0, 0);
        lemma_cell_bits(self.position, self.mask, 0, 0, 0);
        lemma_cell_bits(self.mask, self.position ^ self.mask, 0, 0, 0);
        lemma_fields(self.mask, self.position, 0, 0);
        assert forall|c: u64, r: u64| c < 7 && r < 6 implies (#[trigger] bit(
            self.occupied_bits(),
            (c * 7 + r) as u64,
        ) == (r < self.height(c as int))) by {
            assert(cell(c as int, r as int) == (c * 7 + r) as u64);
        }
    }

    /// Stones of the side to move plus all stones: a key that tells positions apart.
    pub fn key(&self) -> (r: u64)
        requires
            self.wf(),
        ensures
            r == self.own_bits() + self.occupied_bits(),
            r < 0x2_0000_0000_0000,
    {
        proof {
            self.lemma_bits_on_board();
            let p = self.position;
            let m = self.mask;
            assert(p & !BOARD_MASK == 0 && m & !BOARD_MASK == 0 ==> p + m < 0x2_0000_0000_0000) by (bit_vector);
        }
        self.position + self.mask
    }

    /// The lowest empty cell of every column that is not full.
    pub fn possible_moves(&self) -> (r: u64)
        requires
            self.wf(),
        ensures
            r & !BOARD_MASK == 0,
            forall|c: u64, row: u64|
                c < 7 && row < 6 ==> (#[trigger] bit(r, (c * 7 + row) as u64) == (row == self.height(
                    c as int,
                ))),
    {
        proof {
            lemma_possible_bits(self.mask, 0, 0);
            assert forall|c: u64, row: u64| c < 7 && row < 6 implies (#[trigger] bit(
                ((self.mask + BOTTOM_MASK) as u64) & BOARD_MASK,
                (c * 7 + row) as u64,
            ) == (row == self.height(c as int))) by {
                lemma_possible_bits(self.mask, c, row);
            }
        }
        (self.mask + BOTTOM_MASK) & BOARD_MASK
    }

    fn line_ends_of(b: u64, s: u64) -> (r: u64)
        requires
            1 <= s <= 8,
        ensures
            r == line_ends(b, s),
    {
        let mut p = (b << s) & (b << (s * 2));
        let mut r = p & (b << (s * 3));
        r = r | (p & (b >> s));
        p = (b >> s) & (b >> (s * 2));
        r = r | (p & (b << s));
        r = r | (p & (b >> (s * 3)));
        r
    }

    /// Empty board cells where a stone would give the owner of `pos` four in a line.
    fn find_winning_moves(pos: u64, mask: u64) -> (r: u64)
        requires
            pos & !BOARD_MASK == 0,
            mask & !BOARD_MASK == 0,
        ensures
            r & !BOARD_MASK == 0,
            forall|c: u64, row: u64|
                c < 7 && row < 6 ==> (#[trigger] bit(r, (c * 7 + row) as u64) == (!bit(
                    mask,
                    (c * 7 + row) as u64,
                ) && completes_line(pos, c, row))),
    {
        let v = (pos << 1u64) & (pos << 2u64) & (pos << 3u64);
        let h = Self::line_ends_of(pos, 7);
        let d = Self::line_ends_of(pos, 6);
        let e = Self::line_ends_of(pos, 8);
        let r = (v | h | d | e) & (BOARD_MASK ^ mask);
        proof {
            lemma_cell_bits(mask, v | h | d | e, 0, 0, 0);
            assert forall|c: u64, row: u64| c < 7 && row < 6 implies (#[trigger] bit(
                r,
                (c * 7 + row) as u64,
            ) == (!bit(mask, (c * 7 + row) as u64) && completes_line(pos, c, row))) by {
                lemma_column_ends(pos, c, row);
                lemma_row_ends(pos, c, row);
                lemma_rising_ends(pos, c, row);
                lemma_falling_ends(pos, c, row);
                lemma_combine_bits(v, h, d, e, mask, (c * 7 + row) as u64);
                lemma_cell_bits(0, 0, mask, c, row);
            }
        }
        r
    }

    /// Empty cells where a stone of the side to move would make four in a line.
    pub fn winning_moves(&self) -> (r: u64)
        requires
            self.wf(),
        ensures
            r & !BOARD_MASK == 0,
            forall|c: u64, row: u64|
                c < 7 && row < 6 ==> (#[trigger] bit(r, (c * 7 + row) as u64) == (row >= self.height(
                    c as int,
                ) && completes_line(self.own_bits(), c, row))),
    {
        proof {
            self.lemma_bits_on_board();
        }
        Self::find_winning_moves(self.position, self.mask)
    }

    /// Empty cells where a stone of the opponent would make four in a line.
    pub fn opponent_winning_moves(&self) -> (r: u64)
        requires
            self.wf(),
        ensures
            r & !BOARD_MASK == 0,
            forall|c: u64, row: u64|
                c < 7 && row < 6 ==> (#[trigger] bit(r, (c * 7 + row) as u64) == (row >= self.height(
                    c as int,
                ) && completes_line(self.opponent_bits(), c, row))),
    {
        proof {
            self.lemma_bits_on_board();
        }
        Self::find_winning_moves(self.position ^ self.mask, self.mask)
    }

    /// Whether the side to move can win with its next stone.
    pub fn can_win_next(&self) -> (r: bool)
        requires
            self.wf(),
        ensures
            r == self.spec_can_win_next(),
    {
        let w = self.winning_moves();
        let p = self.possible_moves();
        let x = w & p;
        proof {
            self.lemma_bits_on_board();
            lemma_cell_bits(w, p, 0, 0, 0);
            lemma_cells_of(x);
            if x != 0 {
                let (c, row) = choose|c: u64, row: u64| c < 7 && row < 6 && #[trigger] bit(x, (c * 7 + row) as u64);
                lemma_bits(w, p, (c * 7 + row) as u64);
                assert(self.winning_column(c as int));
            }
            if self.spec_can_win_next() {
                let c = choose|c: int| #[trigger] self.winning_column(c);
                let row = self.height(c) as u64;
                lemma_bits(w, p, (c * 7 + row) as u64);
                assert(bit(x, ((c as u64) * 7 + row) as u64));
            }
        }
        x != 0
    }

    /// Whether playing column `col` wins at once for the side to move.
    pub fn is_winning_move(&self, col: usize) -> (r: bool)
        requires
            self.wf(),
            col < 7,
        ensures
            r == self.winning_column(col as int),
    {
        let w = self.winning_moves();
        let p = self.possible_moves();
        let k = Self::column_mask(col);
        let x = w & p & k;
        proof {
            self.lemma_bits_on_board();
            lemma_cell_bits(w, p, 0, 0, 0);
            lemma_cell_bits(w & p, k, 0, 0, 0);
            lemma_cells_of(x);
            if x != 0 {
                let (c, row) = choose|c: u64, row: u64| c < 7 && row < 6 && #[trigger] bit(x, (c * 7 + row) as u64);
                lemma_bits(w & p, k, (c * 7 + row) as u64);
                lemma_bits(w, p, (c * 7 + row) as u64);
                lemma_in_column(col as u64, c, row);
                assert(c == col);
            }
            if self.winning_column(col as int) {
                let c = col as u64;
                let row = self.height(col as int) as u64;
                lemma_bits(w & p, k, (c * 7 + row) as u64);
                lemma_bits(w, p, (c * 7 + row) as u64);
                lemma_in_column(c, c, row);
                assert(bit(x, (c * 7 + row) as u64));
            }
        }
        x != 0
    }

    /// Whether the opponent would win at once in column `col`, so that the
    /// side to move has to block it there.
    pub fn is_forced_move(&self, col: usize) -> (r: bool)
        requires
            self.wf(),
            col < 7,
        ensures
            r == self.threatened_column(col as int),
    {
        let possible_moves = self.possible_moves();
        let opponent_winning_moves = self.opponent_winning_moves();
        let forced_moves = possible_moves & opponent_winning_moves;
        let k = Self::column_mask(col);
        let x = forced_moves & k;
        proof {
            let p = possible_moves;
            let o = opponent_winning_moves;
            self.lemma_bits_on_board();
            lemma_cell_bits(p, o, 0, 0, 0);
            lemma_cell_bits(p & o, k, 0, 0, 0);
            lemma_cells_of(x);
            if x != 0 {
                let (c, row) = choose|c: u64, row: u64| c < 7 && row < 6 && #[trigger] bit(x, (c * 7 + row) as u64);
                lemma_bits(p & o, k, (c * 7 + row) as u64);
                lemma_bits(p, o, (c * 7 + row) as u64);
                lemma_in_column(col as u64, c, row);
                assert(c == col);
            }
            if self.threatened_column(col as int) {
                let c = col as u64;
                let row = self.height(col as int) as u64;
                lemma_bits(p & o, k, (c * 7 + row) as u64);
                lemma_bits(p, o, (c * 7 + row) as u64);
                lemma_in_column(c, c, row);
                assert(bit(x, (c * 7 + row) as u64));
            }
        }
        x != 0
    }

    /// The cells of `p & o`, for `p` the playable cells and `o` the
    /// opponent's winning cells, are the threatened columns at their height.
    proof fn lemma_threat_cells(self, p: u64, o: u64)
        requires
            self.wf(),
            p & !BOARD_MASK == 0,
            o & !BOARD_MASK == 0,
            forall|c: u64, row: u64|
                c < 7 && row < 6 ==> (#[trigger] bit(p, (c * 7 + row) as u64) == (row == self.height(
                    c as int,
                ))),
            forall|c: u64, row: u64|
                c < 7 && row < 6 ==> (#[trigger] bit(o, (c * 7 + row) as u64) == (row >= self.height(
                    c as int,
                ) && completes_line(self.opponent_bits(), c, row))),
        ensures
            (p & o) & !BOARD_MASK == 0,
            forall|c: u64, row: u64|
                c < 7 && row < 6 ==> (#[trigger] bit(p & o, (c * 7 + row) as u64) == (row
                    == self.height(c as int) && self.threatened_column(c as int))),
            (p & o != 0) == self.any_threat(),
            ((p & o) & (((p & o) - 1) as u64) != 0) == self.double_threat(),
    {
        let f = p & o;
        self.lemma_bits_on_board();
        lemma_cell_bits(p, o, 0, 0, 0);
        assert forall|c: u64, row: u64| c < 7 && row < 6 implies (#[trigger] bit(
            f,
            (c * 7 + row) as u64,
        ) == (row == self.height(c as int) && self.threatened_column(c as int))) by {
            lemma_bits(p, o, (c * 7 + row) as u64);
        }
        lemma_cells_of(f);
        if f != 0 {
            let (c, row) = choose|c: u64, row: u64| c < 7 && row < 6 && #[trigger] bit(f, (c * 7 + row) as u64);
            assert(self.threatened_column(c as int));
        }
        if self.any_threat() {
            let c = choose|c: int| #[trigger] self.threatened_column(c);
            assert(bit(f, ((c as u64) * 7 + self.height(c) as u64) as u64));
        }
        lemma_two_cells(f);
        if f & ((f - 1) as u64) != 0 {
            let (c1, r1, c2, r2) = choose|c1: u64, r1: u64, c2: u64, r2: u64|
                c1 < 7 && r1 < 6 && c2 < 7 && r2 < 6 && (c1 != c2 || r1 != r2) && #[trigger] bit(
                    f,
                    (c1 * 7 + r1) as u64,
                ) && #[trigger] bit(f, (c2 * 7 + r2) as u64);
            assert(self.threatened_column(c1 as int) && self.threatened_column(c2 as int));
            assert(c1 != c2);
        }
        if self.double_threat() {
            let (c1, c2) = choose|c1: int, c2: int|
                c1 != c2 && #[trigger] self.threatened_column(c1) && #[trigger] self.threatened_column(c2);
            let r1 = self.height(c1) as u64;
            let r2 = self.height(c2) as u64;
            assert(bit(f, ((c1 as u64) * 7 + r1) as u64));
            assert(bit(f, ((c2 as u64) * 7 + r2) as u64));
        }
    }

    /// Whether a stone on (c, row) is among the moves that do not let the
    /// opponent win at once: none when the opponent threatens two columns;
    /// else the threatened column if there is one, or any playable cell; and
    /// never a cell right below a cell where the opponent would win.
    pub open spec fn safe_cell(self, c: u64, row: u64) -> bool {
        &&& !self.double_threat()
        &&& row == self.height(c as int)
        &&& (self.threatened_column(c as int) || !self.any_threat())
        &&& !(row < 5 && completes_line(self.opponent_bits(), c, (row + 1) as u64))
    }

    /// A playable column is safe exactly when playing it does not let the
    /// opponent win with its next stone.
    pub proof fn lemma_safe_column(self, c: int)
        requires
            self.wf(),
            column_open(self@, c),
        ensures
            self.safe_cell(c as u64, self.height(c) as u64) == !self.spec_played(c).spec_can_win_next(),
    {
        let q = self.spec_played(c);
        Self::lemma_play(self, q, c as usize);
        self.lemma_view();
        assert(q.own_bits() == self.opponent_bits());
        assert forall|d: int| 0 <= d < 7 implies #[trigger] q.height(d) == self.height(d) + if d == c {
            1int
        } else {
            0int
        } by {
            assert(q@[d].len() == board_play(self@, c)[d].len());
        }
        let h = self.height(c);
        if q.spec_can_win_next() {
            let d = choose|d: int| #[trigger] q.winning_column(d);
            if d != c {
                assert(self.threatened_column(d));
                if self.threatened_column(c) {
                    assert(self.double_threat());
                } else {
                    assert(self.any_threat());
                }
            } else {
                assert(h < 5 && completes_line(self.opponent_bits(), c as u64, (h + 1) as u64));
            }
        }
        if !self.safe_cell(c as u64, h as u64) {
            if self.double_threat() {
                let (c1, c2) = choose|c1: int, c2: int|
                    c1 != c2 && #[trigger] self.threatened_column(c1) && #[trigger] self.threatened_column(c2);
                let d = if c1 != c { c1 } else { c2 };
                assert(q.winning_column(d));
            } else if !(self.threatened_column(c) || !self.any_threat()) {
                let d = choose|d: int| #[trigger] self.threatened_column(d);
                assert(q.winning_column(d));
            } else {
                assert(q.winning_column(c));
            }
        }
    }

    /// A set of cells that holds exactly the safe cells is empty exactly when
    /// every legal move lets the opponent win with its next stone.
    pub proof fn lemma_no_safe_move(self, r: u64)
        requires
            self.wf(),
            r & !BOARD_MASK == 0,
            forall|c: u64, row: u64|
                c < 7 && row < 6 ==> (#[trigger] bit(r, (c * 7 + row) as u64) == self.safe_cell(c, row)),
        ensures
            (r == 0) <==> forall|c: int|
                0 <= c < 7 && column_open(self@, c) ==> #[trigger] self.spec_played(c).spec_can_win_next(),
    {
        lemma_cells_of(r);
        self.lemma_view();
        if r != 0 {
            let (c, row) = choose|c: u64, row: u64| c < 7 && row < 6 && #[trigger] bit(r, (c * 7 + row) as u64);
            self.lemma_safe_column(c as int);
            assert(!self.spec_played(c as int).spec_can_win_next());
        }
        if exists|c: int| 0 <= c < 7 && column_open(self@, c) && !#[trigger] self.spec_played(c).spec_can_win_next() {
            let c = choose|c: int| 0 <= c < 7 && column_open(self@, c) && !#[trigger] self.spec_played(c).spec_can_win_next();
            self.lemma_safe_column(c);
            assert(bit(r, ((c as u64) * 7 + self.height(c) as u64) as u64));
        }
    }

    /// The moves that do not let the opponent win at once: none when the
    /// opponent threatens two columns; else the blocking column if there is a
    /// threat, or every playable column; less any cell right below a cell
    /// where the opponent would win.
    pub fn possible_non_losing_moves(&self) -> (r: u64)
        requires
            self.wf(),
        ensures
            r & !BOARD_MASK == 0,
            forall|c: u64, row: u64|
                c < 7 && row < 6 ==> (#[trigger] bit(r, (c * 7 + row) as u64) == self.safe_cell(c, row)),
            (r == 0) <==> forall|c: int|
                0 <= c < 7 && column_open(self@, c) ==> #[trigger] self.spec_played(c).spec_can_win_next(),
    {
        let mut possible_moves = self.possible_moves();
        let opponent_winning_moves = self.opponent_winning_moves();
        let forced_moves = possible_moves & opponent_winning_moves;
        proof {
            self.lemma_threat_cells(possible_moves, opponent_winning_moves);
        }
        if forced_moves != 0 {
            if forced_moves & (forced_moves - 1) != 0 {
                proof {
                    assert forall|c: u64, row: u64| c < 7 && row < 6 implies !#[trigger] bit(0, (c * 7 + row) as u64) by {
                        lemma_bits(0, 0, (c * 7 + row) as u64);
                    }
                    lemma_bits(0, 0, 0);
                    assert(0u64 & !BOARD_MASK == 0) by (bit_vector);
                    self.lemma_no_safe_move(0);
                }
                return 0;
            }
            possible_moves = forced_moves;
        }
        let r = possible_moves & !(opponent_winning_moves >> 1);
        proof {
            let o = opponent_winning_moves;
            lemma_cell_bits(possible_moves, o, 0, 0, 0);
            assert forall|c: u64, row: u64| c < 7 && row < 6 implies (#[trigger] bit(
                r,
                (c * 7 + row) as u64,
            ) == self.safe_cell(c, row)) by {
                lemma_cell_bits(possible_moves, o, 0, c, row);
                lemma_cell_bits(o, o, 0, c, row);
                if row < 5 {
                    assert(bit(o, (c * 7 + (row + 1)) as u64) == ((row + 1) as u64 >= self.height(c as int) && completes_line(self.opponent_bits(), c, (row + 1) as u64)));
                }
            }
            self.lemma_no_safe_move(r);
        }
        r
    }

    /// Number of empty cells where the side to move would have four in a
    /// line once it has a stone on `move_bit`: a cheap estimate of how
    /// promising that move is.
    pub fn score_move(&self, move_bit: u64) -> (r: u32)
        requires
            self.wf(),
            move_bit & !BOARD_MASK == 0,
        ensures
            exists|s: u64|
                s & !BOARD_MASK == 0 && r == bit_count(s) && forall|c: u64, row: u64|
                    c < 7 && row < 6 ==> (#[trigger] bit(s, (c * 7 + row) as u64) == (!bit(
                        self.occupied_bits() | move_bit,
                        (c * 7 + row) as u64,
                    ) && completes_line(self.own_bits() | move_bit, c, row))),
    {
        proof {
            self.lemma_bits_on_board();
            let p = self.position;
            let m = self.mask;
            assert(p & !BOARD_MASK == 0 && move_bit & !BOARD_MASK == 0 ==> (p | move_bit) & !BOARD_MASK == 0) by (bit_vector);
            assert(m & !BOARD_MASK == 0 && move_bit & !BOARD_MASK == 0 ==> (m | move_bit) & !BOARD_MASK == 0) by (bit_vector);
        }
        let winning_moves = Self::find_winning_moves(self.position | move_bit, self.mask | move_bit);
        count_ones(winning_moves)
    }

    /// Appends the digits of column `col` to the base-3 code `k`.
    fn compute_key3(&self, k: &mut u64, col: usize)
        requires
            self.wf(),
            col < 7,
            (*old(k) + 1) * pow3((self.height(col as int) + 1) as int) <= 0x1_0000_0000_0000_0000,
        ensures
            *final(k) == column_code(*old(k) as int, self@[col as int]),
            *final(k) + 1 <= (*old(k) + 1) * pow3((self.height(col as int) + 1) as int),
    {
        proof {
            self.lemma_view();
        }
        let ghost k0 = *k as int;
        let ghost s = self@[col as int];
        let mut p: u64 = 1u64 << (col * 7) as u64;
        let ghost mut i: nat = 0;
        proof {
            assert(s.take(0) =~= Seq::<bool>::empty());
        }
        while p & self.mask != 0
            invariant
                self.wf(),
                col < 7,
                s == self@[col as int],
                i <= s.len(),
                s.len() <= 6,
                p == 1u64 << ((col * 7 + i) as u64),
                *k == stones_code(k0, s.take(i as int)),
                k0 >= 0,
                (k0 + 1) * pow3((s.len() + 1) as int) <= 0x1_0000_0000_0000_0000,
            decreases 7 - i,
        {
            proof {
                self.lemma_view();
                let j = (col * 7 + i) as u64;
                let m = self.mask;
                let q = self.position;
                assert(j < 64 ==> ((1u64 << j) & m != 0) == bit(m, j) && ((1u64 << j) & q != 0) == bit(q, j)) by (bit_vector);
                assert(i < s.len()) by {
                    assert(bit(self.mask, cell(col as int, i as int)) == (i < s.len()));
                }
                assert(s.take((i + 1) as int).drop_last() =~= s.take(i as int));
                lemma_stones_code_bound(k0, s.take(i as int));
                lemma_pow3_mono((i + 1) as int, (s.len() + 1) as int);
                assert(pow3((i + 1) as int) == 3 * pow3((i) as int));
                assert((k0 + 1) * pow3((i + 1) as int) == 3 * ((k0 + 1) * pow3((i) as int))) by (nonlinear_arith)
                    requires pow3((i + 1) as int) == 3 * pow3((i) as int);
                assert((k0 + 1) * pow3((i + 1) as int) <= (k0 + 1) * pow3((s.len() + 1) as int)) by (nonlinear_arith)
                    requires pow3((i + 1) as int) <= pow3((s.len() + 1) as int), k0 + 1 >= 0;
            }
            *k = *k * 3;
            if p & self.position != 0 {
                *k = *k + 1;
            } else {
                *k = *k + 2;
            }
            proof {
                let j = (col * 7 + i) as u64;
                assert(j < 64 ==> (j + 1 < 64 ==> (1u64 << j) << 1u64 == 1u64 << ((j + 1) as u64))) by (bit_vector);
            }
            p = p << 1u64;
            proof {
                i = i + 1;
            }
        }
        proof {
            self.lemma_view();
            let m = self.mask;
            let j = (col * 7 + i) as u64;
            assert(j < 64 ==> ((1u64 << j) & m != 0) == bit(m, j)) by (bit_vector);
            assert(bit(self.mask, cell(col as int, i as int)) == (i < s.len()));
            assert(i == s.len());
            assert(s.take(i as int) =~= s);
            lemma_stones_code_bound(k0, s);
            assert(pow3((s.len() + 1) as int) == 3 * pow3((s.len()) as int));
            assert((k0 + 1) * pow3((s.len() + 1) as int) == 3 * ((k0 + 1) * pow3((s.len()) as int))) by (nonlinear_arith)
                requires pow3((s.len() + 1) as int) == 3 * pow3((s.len()) as int);
        }
        *k = *k * 3;
    }

    /// Base-3 code of the board, the same for a board and its mirror image;
    /// defined for boards of at most 33 stones, whose codes fit in 64 bits.
    pub fn key3(&self) -> (r: u64)
        requires
            self.wf(),
            self.spec_n_moves() <= 33,
        ensures
            r == symmetric_code(self@),
    {
        proof {
            self.lemma_view();
            reveal_with_fuel(pow3, 41);
            assert(pow3(40) == 12157665459056928801nat);
        }
        let ghost b = self@;
        let mut k: u64 = 0;
        let mut col: usize = 0;
        proof {
            assert(b.take(0) =~= Seq::<Seq<bool>>::empty());
        }
        while col < 7
            invariant
                self.wf(),
                b == self@,
                board_ok(b),
                stone_count(b) <= 33,
                col <= 7,
                k == board_code(b.take(col as int)),
                k + 1 <= pow3((stone_count(b.take(col as int)) + col) as int),
                pow3(40) < 0x1_0000_0000_0000_0000,
            decreases 7 - col,
        {
            proof {
                let h = b[col as int].len();
                lemma_stone_count_take(b, col as int);
                lemma_stone_count_prefix(b, col as int + 1);
                lemma_pow3_add(stone_count(b.take(col as int)) + col, (h + 1) as int);
                lemma_pow3_pos((h + 1) as int);
                lemma_pow3_mono(stone_count(b.take(col as int + 1)) + col + 1, 40);
                assert((k + 1) * pow3((h + 1) as int) <= pow3((stone_count(b.take(col as int)) + col) as int) * pow3((h + 1) as int)) by (nonlinear_arith)
                    requires k + 1 <= pow3((stone_count(b.take(col as int)) + col) as int), pow3((h + 1) as int) >= 1;
                assert(b.take(col + 1).drop_last() =~= b.take(col as int));
            }
            self.compute_key3(&mut k, col);
            proof {
                let h = b[col as int].len();
                assert(b.take(col + 1).drop_last() =~= b.take(col as int));
            }
            col = col + 1;
        }
        let ghost mb = mirror(b);
        let mut k_rev: u64 = 0;
        let mut j: usize = 0;
        proof {
            assert(mb.take(0) =~= Seq::<Seq<bool>>::empty());
            assert(b.take(7) =~= b);
            assert(b.take(col as int) =~= b);
        }
        while j < 7
            invariant
                self.wf(),
                b == self@,
                mb == mirror(b),
                board_ok(b),
                stone_count(b) <= 33,
                j <= 7,
                k_rev == board_code(mb.take(j as int)),
                stone_count(mb.take(j as int)) + stone_count(b.take(7 - j)) == stone_count(b),
                k_rev + 1 <= pow3((stone_count(mb.take(j as int)) + j) as int),
                pow3(40) < 0x1_0000_0000_0000_0000,
            decreases 7 - j,
        {
            proof {
                let c = 6 - j;
                let h = b[c].len();
                assert(mb[j as int] == b[c]);
                lemma_stone_count_take(b, c);
                lemma_stone_count_take(mb, j as int);
                lemma_pow3_add(stone_count(mb.take(j as int)) + j, (h + 1) as int);
                lemma_pow3_pos((h + 1) as int);
                lemma_pow3_mono(stone_count(mb.take(j as int + 1)) + j + 1, 40);
                assert((k_rev + 1) * pow3((h + 1) as int) <= pow3((stone_count(mb.take(j as int)) + j) as int) * pow3((h + 1) as int)) by (nonlinear_arith)
                    requires k_rev + 1 <= pow3((stone_count(mb.take(j as int)) + j) as int), pow3((h + 1) as int) >= 1;
                assert(mb.take(j + 1).drop_last() =~= mb.take(j as int));
            }
            self.compute_key3(&mut k_rev, 6 - j);
            j = j + 1;
        }
        proof {
            assert(b.take(7) =~= b);
            assert(mb.take(7) =~= mb);
        }
        if k <= k_rev {
            k / 3
        } else {
            k_rev / 3
        }
    }

    /// Plays the columns of `moves` in order. On an invalid move the
    /// position is left as it was and the move's index is returned.
    pub fn apply_moves(&mut self, moves: &[usize]) -> (r: Result<(), InvalidMove>)
        requires
            old(self).wf(),
        ensures
            final(self).wf(),
            r is Ok <==> board_after(old(self)@, usize_columns(moves@)) is Some,
            r is Ok ==> board_after(old(self)@, usize_columns(moves@)) == Some(final(self)@)
                && final(self).spec_n_moves() == old(self).spec_n_moves() + moves@.len(),
            r matches Err(e) ==> first_invalid(old(self)@, usize_columns(moves@), e.index as int)
                && *final(self) == *old(self),
    {
        let ghost cols = usize_columns(moves@);
        let ghost b0 = self@;
        let mut p = *self;
        let mut i: usize = 0;
        proof {
            assert(cols.take(0) =~= Seq::<int>::empty());
        }
        while i < moves.len()
            invariant
                p.wf(),
                self.wf(),
                *self == *old(self),
                b0 == self@,
                cols == usize_columns(moves@),
                i <= moves.len(),
                board_after(b0, cols.take(i as int)) == Some(p@),
                p.spec_n_moves() == self.spec_n_moves() + i,
            decreases moves.len() - i,
        {
            proof {
                assert(cols.take(i + 1).drop_last() =~= cols.take(i as int));
            }
            let col = moves[i];
            if col >= 7 || !p.can_play(col) {
                proof {
                    assert(cols.take(i + 1).last() == cols[i as int]);
                    assert(board_after(b0, cols.take(i + 1)) is None);
                    lemma_board_after_prefix(b0, cols, i + 1);
                }
                return Err(InvalidMove { index: i });
            }
            p.play(col);
            i = i + 1;
        }
        proof {
            assert(cols.take(i as int) =~= cols);
        }
        *self = p;
        Ok(())
    }

    /// Plays the columns named by the digits `1` to `7` of `s`, in order. A
    /// byte that is no such digit, or a full column, is an invalid move; the
    /// position is then left as it was.
    pub fn apply_str(&mut self, s: &str) -> (r: Result<(), InvalidMove>)
        requires
            old(self).wf(),
        ensures
            final(self).wf(),
            r is Ok <==> board_after(old(self)@, digit_columns(s.spec_bytes())) is Some,
            r is Ok ==> board_after(old(self)@, digit_columns(s.spec_bytes())) == Some(final(self)@)
                && final(self).spec_n_moves() == old(self).spec_n_moves() + s.spec_bytes().len(),
            r matches Err(e) ==> first_invalid(old(self)@, digit_columns(s.spec_bytes()), e.index as int)
                && *final(self) == *old(self),
    {
        let bytes = s.as_bytes();
        let ghost cols = digit_columns(bytes@);
        let ghost b0 = self@;
        let mut p = *self;
        let mut i: usize = 0;
        proof {
            assert(cols.take(0) =~= Seq::<int>::empty());
        }
        while i < bytes.len()
            invariant
                p.wf(),
                self.wf(),
                *self == *old(self),
                b0 == self@,
                cols == digit_columns(bytes@),
                bytes@ == s.spec_bytes(),
                i <= bytes.len(),
                board_after(b0, cols.take(i as int)) == Some(p@),
                p.spec_n_moves() == self.spec_n_moves() + i,
            decreases bytes.len() - i,
        {
            proof {
                assert(cols.take(i + 1).drop_last() =~= cols.take(i as int));
            }
            let digit = bytes[i];
            if digit < 49 || digit > 55 || !p.can_play((digit - 49) as usize) {
                proof {
                    assert(cols.take(i + 1).last() == cols[i as int]);
                    assert(board_after(b0, cols.take(i + 1)) is None);
                    lemma_board_after_prefix(b0, cols, i + 1);
                }
                return Err(InvalidMove { index: i });
            }
            p.play((digit - 49) as usize);
            i = i + 1;
        }
        proof {
            assert(cols.take(i as int) =~= cols);
        }
        *self = p;
        Ok(())
    }

    /// Distinct positions have distinct keys: the key gives back both the
    /// stones of the side to move and the occupied cells.
    pub proof fn lemma_key_distinct(a: Position, b: Position)
        requires
            a.wf(),
            b.wf(),
            a.own_bits() + a.occupied_bits() == b.own_bits() + b.occupied_bits(),
        ensures
            a.own_bits() == b.own_bits(),
            a.occupied_bits() == b.occupied_bits(),
            a@ == b@,
    {
        lemma_key_bits(a.position, a.mask, b.position, b.mask);
    }

    /// A set of board cells that meets a column holds a cell of that column.
    pub proof fn lemma_column_cell(x: u64, col: u64)
        requires
            x & !BOARD_MASK == 0,
            col < 7,
            x & Self::spec_column_mask(col as int) != 0,
        ensures
            exists|row: u64| row < 6 && #[trigger] bit(x, (col * 7 + row) as u64),
    {
        let k = Self::spec_column_mask(col as int);
        lemma_cell_bits(x, k, 0, 0, 0);
        lemma_cells_of(x & k);
        let (c, row) = choose|c: u64, row: u64| c < 7 && row < 6 && #[trigger] bit(x & k, (c * 7 + row) as u64);
        lemma_bits(x, k, (c * 7 + row) as u64);
        lemma_column_bits(col, (c * 7 + row) as u64);
        lemma_in_column(col, c, row);
        assert(bit(x, (col * 7 + row) as u64));
    }

    /// A set of cells that holds a cell of column `col` meets that column.
    pub proof fn lemma_column_meets(x: u64, col: u64, row: u64)
        requires
            col < 7,
            row < 6,
            bit(x, (col * 7 + row) as u64),
        ensures
            x & Self::spec_column_mask(col as int) != 0,
    {
        assert(col < 7 && row < 6 && bit(x, (col * 7 + row) as u64) ==> x & (0x3fu64 << ((col * 7) as u64)) != 0) by (bit_vector);
    }

    /// Stones and heights of a position whose board is the mirror image of
    /// another's.
    pub proof fn lemma_mirror_bits(p: Position, q: Position)
        requires
            p.wf(),
            q.wf(),
            q@ == mirror(p@),
        ensures
            forall|c: u64, r: u64|
                c < 7 && r < 6 ==> #[trigger] bit(q.own_bits(), (c * 7 + r) as u64) == bit(
                    p.own_bits(),
                    ((6 - c) * 7 + r) as u64,
                ),
            forall|c: u64, r: u64|
                c < 7 && r < 6 ==> #[trigger] bit(q.opponent_bits(), (c * 7 + r) as u64) == bit(
                    p.opponent_bits(),
                    ((6 - c) * 7 + r) as u64,
                ),
            forall|c: int| 0 <= c < 7 ==> #[trigger] q.height(c) == p.height(6 - c),
    {
        p.lemma_view();
        q.lemma_view();
        assert forall|c: int| 0 <= c < 7 implies #[trigger] q.height(c) == p.height(6 - c) by {
            assert(q@[c] == p@[6 - c]);
        }
        assert forall|c: u64, r: u64| c < 7 && r < 6 implies #[trigger] bit(q.own_bits(), (c * 7 + r) as u64)
            == bit(p.own_bits(), ((6 - c) * 7 + r) as u64) by {
            Self::lemma_mirror_cell(p, q, c, r);
        }
        assert forall|c: u64, r: u64| c < 7 && r < 6 implies #[trigger] bit(q.opponent_bits(), (c * 7 + r) as u64)
            == bit(p.opponent_bits(), ((6 - c) * 7 + r) as u64) by {
            Self::lemma_mirror_cell(p, q, c, r);
        }
    }

    /// Winning and threatened columns trade places in a mirror.
    pub proof fn lemma_mirror_threats(p: Position, q: Position)
        requires
            p.wf(),
            q.wf(),
            q@ == mirror(p@),
        ensures
            forall|c: int| 0 <= c < 7 ==> #[trigger] q.winning_column(c) == p.winning_column(6 - c),
            forall|c: int| 0 <= c < 7 ==> #[trigger] q.threatened_column(c) == p.threatened_column(6 - c),
            q.spec_can_win_next() == p.spec_can_win_next(),
    {
        Self::lemma_mirror_bits(p, q);
        assert(mirrored_bits(p.own_bits(), q.own_bits()));
        assert(mirrored_bits(p.opponent_bits(), q.opponent_bits()));
        assert forall|c: int| 0 <= c < 7 implies #[trigger] q.winning_column(c) == p.winning_column(6 - c) by {
            let h = q.height(c);
            if h < 6 {
                lemma_mirror_lines(p.own_bits(), q.own_bits(), c as u64, h as u64);
            }
        }
        assert forall|c: int| 0 <= c < 7 implies #[trigger] q.threatened_column(c) == p.threatened_column(6 - c) by {
            let h = q.height(c);
            if h < 6 {
                lemma_mirror_lines(p.opponent_bits(), q.opponent_bits(), c as u64, h as u64);
            }
        }
        if q.spec_can_win_next() {
            let c = choose|c: int| #[trigger] q.winning_column(c);
            assert(p.winning_column(6 - c));
        }
        if p.spec_can_win_next() {
            let c = choose|c: int| #[trigger] p.winning_column(c);
            assert(q.winning_column(6 - c));
        }
    }

    proof fn lemma_mirror_cell(p: Position, q: Position, c: u64, r: u64)
        requires
            p.wf(),
            q.wf(),
            q@ == mirror(p@),
            c < 7,
            r < 6,
        ensures
            bit(q.own_bits(), (c * 7 + r) as u64) == bit(p.own_bits(), ((6 - c) * 7 + r) as u64),
            bit(q.opponent_bits(), (c * 7 + r) as u64) == bit(p.opponent_bits(), ((6 - c) * 7 + r) as u64),
    {
        p.lemma_view();
        q.lemma_view();
        let i = (c * 7 + r) as u64;
        let j = ((6 - c) * 7 + r) as u64;
        assert(cell(c as int, r as int) == i);
        assert(cell(6 - c as int, r as int) == j);
        assert(q@[c as int] == p@[6 - c as int]);
        lemma_bits(q.position, q.mask, i);
        lemma_bits(p.position, p.mask, j);
        assert(bit(q.mask, i) == (r < q@[c as int].len()));
        assert(bit(p.mask, j) == (r < p@[6 - c as int].len()));
        if r < q@[c as int].len() {
            assert(q@[c as int][r as int] == bit(q.position, i));
            assert(p@[6 - c as int][r as int] == bit(p.position, j));
        }
    }

    /// The stone bits read on the board: a cell holds a stone of the side to
    /// move, or of the opponent, exactly where the board says so.
    pub proof fn lemma_bits_of_view(self)
        requires
            self.wf(),
        ensures
            forall|c: int, r: int|
                0 <= c < 7 && 0 <= r < 6 ==> #[trigger] bit(self.own_bits(), cell(c, r)) == (r
                    < self.height(c) && self@[c][r]),
            forall|c: int, r: int|
                0 <= c < 7 && 0 <= r < 6 ==> #[trigger] bit(self.opponent_bits(), cell(c, r)) == (r
                    < self.height(c) && !self@[c][r]),
            forall|c: int, r: int|
                0 <= c < 7 && 0 <= r < 6 ==> #[trigger] bit(self.occupied_bits(), cell(c, r)) == (r
                    < self.height(c)),
    {
        self.lemma_view();
        assert forall|c: int, r: int| 0 <= c < 7 && 0 <= r < 6 implies #[trigger] bit(
            self.own_bits(),
            cell(c, r),
        ) == (r < self.height(c) && self@[c][r]) && bit(self.opponent_bits(), cell(c, r)) == (r
            < self.height(c) && !self@[c][r]) by {
            lemma_bits(self.position, self.mask, cell(c, r));
        }
        assert forall|c: int, r: int| 0 <= c < 7 && 0 <= r < 6 implies #[trigger] bit(
            self.opponent_bits(),
            cell(c, r),
        ) == (r < self.height(c) && !self@[c][r]) by {
            lemma_bits(self.position, self.mask, cell(c, r));
        }
    }

    /// Two positions with the same board are the same position, and so have
    /// the same key.
    pub proof fn lemma_same_view(a: Position, b: Position)
        requires
            a.wf(),
            b.wf(),
            a@ == b@,
        ensures
            a == b,
    {
        a.lemma_bits_on_board();
        b.lemma_bits_on_board();
        assert forall|c: u64| c < 7 implies field(a.mask, c) == field(b.mask, c) && field(a.position, c)
            == field(b.position, c) by {
            Self::lemma_same_cell(a, b, c, 0);
            Self::lemma_same_cell(a, b, c, 1);
            Self::lemma_same_cell(a, b, c, 2);
            Self::lemma_same_cell(a, b, c, 3);
            Self::lemma_same_cell(a, b, c, 4);
            Self::lemma_same_cell(a, b, c, 5);
            Self::lemma_same_cell(a, b, c, 6);
            lemma_fields(a.mask, a.position, c, 0);
            lemma_fields(b.mask, b.position, c, 0);
            lemma_equal_fields(a.mask, b.mask, field(a.mask, c), field(b.mask, c));
            lemma_equal_fields(a.position, b.position, field(a.position, c), field(b.position, c));
        }
        lemma_equal_fields(a.mask, b.mask, 0, 0);
        lemma_equal_fields(a.position, b.position, 0, 0);
    }

    proof fn lemma_same_cell(a: Position, b: Position, c: u64, r: u64)
        requires
            a.wf(),
            b.wf(),
            a@ == b@,
            c < 7,
            r < 7,
        ensures
            bit(field(a.mask, c), r) == bit(field(b.mask, c), r),
            bit(field(a.position, c), r) == bit(field(b.position, c), r),
    {
        a.lemma_view();
        b.lemma_view();
        let i = (c * 7 + r) as u64;
        assert(cell(c as int, r as int) == i);
        lemma_fields(a.mask, a.position, c, r);
        lemma_fields(b.mask, b.position, c, r);
        lemma_fields(a.position, a.mask, c, r);
        lemma_fields(b.position, b.mask, c, r);
        lemma_bits(a.position, a.mask, i);
        lemma_bits(b.position, b.mask, i);
        if r < a@[c as int].len() {
            assert(a@[c as int][r as int] == bit(a.position, i));
            assert(b@[c as int][r as int] == bit(b.position, i));
        }
    }

    /// A position is determined by its stone bits and occupied cells.
    pub proof fn lemma_same_bits(a: Position, b: Position)
        requires
            a.wf(),
            b.wf(),
            a.own_bits() == b.own_bits(),
            a.occupied_bits() == b.occupied_bits(),
        ensures
            a == b,
    {
    }

    proof fn lemma_view(self)
        requires
            self.wf(),
        ensures
            board_ok(self@),
            stone_count(self@) == self.moves,
            forall|c: int, r: int|
                0 <= c < 7 && 0 <= r < 7 ==> (#[trigger] bit(self.mask, cell(c, r)) == (r
                    < self@[c].len())),
            forall|c: int, r: int|
                0 <= c < 7 && 0 <= r < 7 && r < self@[c].len() ==> (#[trigger] self@[c][r]
                    == bit(self.position, cell(c, r))),
    {
        assert forall|c: int| 0 <= c < 7 implies stacked(#[trigger] field(self.mask, c as u64))
            && stack_height(field(self.mask, c as u64)) <= 6 by {
            lemma_fields(self.mask, 0, c as u64, 0);
        }
        assert forall|c: int, r: int| 0 <= c < 7 && 0 <= r < 7 implies (#[trigger] bit(
            self.mask,
            cell(c, r),
        ) == (r < self@[c].len())) by {
            lemma_fields(self.mask, 0, c as u64, r as u64);
        }
        let b = self@;
        lemma_stone_count_seven(b);
    }
}

} // verus!
