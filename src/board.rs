//! Abstract model of a Connect Four board.
//!
//! A board is a sequence of columns; each column lists its stones from the
//! bottom up. A stone is `true` when it belongs to the side to move and
//! `false` when it belongs to the opponent.
use vstd::prelude::*;

verus! {

pub type Board = Seq<Seq<bool>>;

pub open spec fn board_width() -> int {
    7
}

pub open spec fn board_height() -> int {
    6
}

/// Seven columns, none holding more than six stones.
pub open spec fn board_ok(b: Board) -> bool {
    &&& b.len() == board_width()
    &&& forall|c: int| 0 <= c < board_width() ==> #[trigger] b[c].len() <= board_height()
}

pub open spec fn empty_board() -> Board {
    Seq::new(7, |c: int| Seq::<bool>::empty())
}

/// Number of stones on the board.
pub open spec fn stone_count(b: Board) -> nat
    decreases b.len(),
{
    if b.len() == 0 {
        0
    } else {
        stone_count(b.drop_last()) + b.last().len()
    }
}

pub open spec fn column_open(b: Board, c: int) -> bool {
    0 <= c < board_width() && b[c].len() < board_height()
}

/// Every stone changes hands: the side to move becomes the opponent.
pub open spec fn swap_sides(s: Seq<bool>) -> Seq<bool> {
    Seq::new(s.len(), |r: int| !s[r])
}

/// The board after the side to move drops a stone in column `c`: the new
/// stone belongs to the player who just moved, who is now the opponent.
pub open spec fn board_play(b: Board, c: int) -> Board {
    Seq::new(
        b.len(),
        |i: int|
            if i == c {
                swap_sides(b[i]).push(false)
            } else {
                swap_sides(b[i])
            },
    )
}

/// The board after playing the columns of `moves` in order, or `None` when
/// one of them is not a legal move at the time it is played.
pub open spec fn board_after(b: Board, moves: Seq<int>) -> Option<Board>
    decreases moves.len(),
{
    if moves.len() == 0 {
        Some(b)
    } else {
        match board_after(b, moves.drop_last()) {
            Some(prev) => if column_open(prev, moves.last()) {
                Some(board_play(prev, moves.last()))
            } else {
                None
            },
            None => None,
        }
    }
}

/// The board seen in a mirror: column `c` becomes column `6 - c`.
pub open spec fn mirror(b: Board) -> Board {
    Seq::new(b.len(), |c: int| b[b.len() - 1 - c])
}

/// Digit of a stone in the base-3 code: 1 for the side to move, 2 for the opponent.
pub open spec fn stone_digit(s: bool) -> int {
    if s {
        1
    } else {
        2
    }
}

/// `k` followed by one base-3 digit for each stone of `s`, bottom first.
pub open spec fn stones_code(k: int, s: Seq<bool>) -> int
    decreases s.len(),
{
    if s.len() == 0 {
        k
    } else {
        stones_code(k, s.drop_last()) * 3 + stone_digit(s.last())
    }
}

/// `k` followed by the digits of a column and a closing 0 digit.
pub open spec fn column_code(k: int, s: Seq<bool>) -> int {
    stones_code(k, s) * 3
}

/// Base-3 code of the columns of `b`, left to right.
pub open spec fn board_code(b: Board) -> int
    decreases b.len(),
{
    if b.len() == 0 {
        0
    } else {
        column_code(board_code(b.drop_last()), b.last())
    }
}

/// Code shared by a board and its mirror image: the smaller of their two
/// codes, without the final 0 digit.
pub open spec fn symmetric_code(b: Board) -> int {
    let k = board_code(b);
    let k_rev = board_code(mirror(b));
    (if k <= k_rev {
        k
    } else {
        k_rev
    }) / 3
}

pub open spec fn pow3(n: int) -> int
    decreases n,
{
    if n <= 0 {
        1
    } else {
        3 * pow3(n - 1)
    }
}

/// On a board of seven columns the stones are those of the seven columns.
pub proof fn lemma_stone_count_seven(b: Board)
    requires
        b.len() == 7,
    ensures
        stone_count(b) == b[0].len() + b[1].len() + b[2].len() + b[3].len() + b[4].len() + b[5].len()
            + b[6].len(),
{
    reveal_with_fuel(stone_count, 8);
    assert(b.drop_last().drop_last().drop_last().drop_last().drop_last().drop_last().drop_last() =~= Seq::<Seq<bool>>::empty());
    assert(b.drop_last()[5] == b[5]);
}

/// On a board of 42 stones every column is full.
pub proof fn lemma_stone_count_bound(b: Board, c: int)
    requires
        board_ok(b),
        stone_count(b) == 42,
        0 <= c < 7,
    ensures
        !column_open(b, c),
{
    lemma_stone_count_seven(b);
    assert(b[0].len() <= 6 && b[1].len() <= 6 && b[2].len() <= 6 && b[3].len() <= 6 && b[4].len() <= 6 && b[5].len() <= 6 && b[6].len() <= 6);
}

/// A board of fewer than 42 stones has a column that is not full.
pub proof fn lemma_open_column_exists(b: Board)
    requires
        board_ok(b),
        stone_count(b) < 42,
    ensures
        exists|c: int| 0 <= c < 7 && #[trigger] column_open(b, c),
{
    if forall|c: int| 0 <= c < 7 ==> !#[trigger] column_open(b, c) {
        lemma_stone_count_seven(b);
        assert(!column_open(b, 0) && !column_open(b, 1) && !column_open(b, 2) && !column_open(b, 3));
        assert(!column_open(b, 4) && !column_open(b, 5) && !column_open(b, 6));
    }
}

/// Playing a move adds one stone to the board.
pub proof fn lemma_stone_count_play(b: Board, c: int)
    requires
        0 <= c < b.len(),
    ensures
        stone_count(board_play(b, c)) == stone_count(b) + 1,
    decreases b.len(),
{
    let nb = board_play(b, c);
    if c == b.len() - 1 {
        assert(nb.drop_last() =~= Seq::new(b.drop_last().len(), |i: int| swap_sides(b.drop_last()[i])));
        lemma_stone_count_swap(b.drop_last());
    } else {
        assert(nb.drop_last() =~= board_play(b.drop_last(), c));
        lemma_stone_count_play(b.drop_last(), c);
    }
}

proof fn lemma_stone_count_swap(b: Board)
    ensures
        stone_count(Seq::new(b.len(), |i: int| swap_sides(b[i]))) == stone_count(b),
    decreases b.len(),
{
    if b.len() > 0 {
        let nb = Seq::new(b.len(), |i: int| swap_sides(b[i]));
        assert(nb.drop_last() =~= Seq::new(b.drop_last().len(), |i: int| swap_sides(b.drop_last()[i])));
        lemma_stone_count_swap(b.drop_last());
    }
}

/// Playing a sequence of legal moves from the empty board leaves one stone
/// per move on the board.
pub proof fn lemma_moves_count(moves: Seq<int>)
    requires
        board_after(empty_board(), moves) is Some,
    ensures
        stone_count(board_after(empty_board(), moves)->0) == moves.len(),
    decreases moves.len(),
{
    if moves.len() == 0 {
        lemma_stone_count_seven(empty_board());
    } else {
        lemma_moves_count(moves.drop_last());
        let prev = board_after(empty_board(), moves.drop_last())->0;
        lemma_board_after_len(empty_board(), moves.drop_last());
        lemma_stone_count_play(prev, moves.last());
    }
}

/// Playing moves keeps the number of columns.
pub proof fn lemma_board_after_len(b: Board, moves: Seq<int>)
    requires
        board_after(b, moves) is Some,
    ensures
        (board_after(b, moves)->0).len() == b.len(),
    decreases moves.len(),
{
    if moves.len() > 0 {
        lemma_board_after_len(b, moves.drop_last());
    }
}

/// Once a move is illegal, no longer sequence of moves is legal.
pub proof fn lemma_board_after_prefix(b: Board, moves: Seq<int>, i: int)
    requires
        0 <= i <= moves.len(),
        board_after(b, moves.take(i)) is None,
    ensures
        board_after(b, moves) is None,
    decreases moves.len() - i,
{
    if i < moves.len() {
        assert(moves.take(i + 1).drop_last() =~= moves.take(i));
        lemma_board_after_prefix(b, moves, i + 1);
    } else {
        assert(moves.take(i) =~= moves);
    }
}

/// Playing a column and then mirroring is playing the mirrored column on
/// the mirrored board.
pub proof fn lemma_mirror_play(b: Board, c: int)
    requires
        b.len() == 7,
        0 <= c < 7,
    ensures
        board_play(mirror(b), 6 - c) == mirror(board_play(b, c)),
        column_open(mirror(b), 6 - c) == column_open(b, c),
{
    assert(board_play(mirror(b), 6 - c) =~= mirror(board_play(b, c)));
}

/// A board and its mirror image hold as many stones.
pub proof fn lemma_mirror_count(b: Board)
    requires
        b.len() == 7,
    ensures
        stone_count(mirror(b)) == stone_count(b),
        mirror(b).len() == 7,
{
    let m = mirror(b);
    lemma_stone_count_seven(b);
    lemma_stone_count_seven(m);
    assert(m[0] == b[6] && m[1] == b[5] && m[2] == b[4] && m[3] == b[3] && m[4] == b[2] && m[5] == b[1] && m[6] == b[0]);
}

/// A board and its mirror image share their symmetric code.
pub proof fn lemma_mirror_code(b: Board)
    ensures
        symmetric_code(mirror(b)) == symmetric_code(b),
{
    assert(mirror(mirror(b)) =~= b);
}

pub proof fn lemma_pow3_add(a: int, b: int)
    requires
        a >= 0,
        b >= 0,
    ensures
        pow3(a + b) == pow3(a) * pow3(b),
    decreases b,
{
    if b > 0 {
        lemma_pow3_add(a, b - 1);
        assert(pow3(a + b) == 3 * pow3(a + b - 1));
        assert(pow3(a) * pow3(b) == pow3(a) * (3 * pow3(b - 1)));
        assert(pow3(a) * (3 * pow3(b - 1)) == 3 * (pow3(a) * pow3(b - 1))) by (nonlinear_arith);
    }
}

pub proof fn lemma_pow3_pos(n: int)
    ensures
        pow3(n) >= 1,
    decreases n,
{
    if n > 0 {
        lemma_pow3_pos(n - 1);
    }
}

pub proof fn lemma_pow3_mono(a: int, b: int)
    requires
        0 <= a <= b,
    ensures
        1 <= pow3(a) <= pow3(b),
    decreases b - a,
{
    lemma_pow3_pos(a);
    if a < b {
        lemma_pow3_mono(a, b - 1);
    }
}

/// Each stone adds one base-3 digit.
pub proof fn lemma_stones_code_bound(k: int, s: Seq<bool>)
    requires
        k >= 0,
    ensures
        0 <= stones_code(k, s),
        stones_code(k, s) + 1 <= (k + 1) * pow3((s.len()) as int),
    decreases s.len(),
{
    if s.len() > 0 {
        lemma_stones_code_bound(k, s.drop_last());
        let x = stones_code(k, s.drop_last());
        assert(pow3((s.len()) as int) == 3 * pow3((s.drop_last().len()) as int));
        assert((k + 1) * (3 * pow3((s.drop_last().len()) as int)) == 3 * ((k + 1) * pow3((s.drop_last().len()) as int))) by (nonlinear_arith);
    }
}

pub proof fn lemma_stone_count_take(b: Board, j: int)
    requires
        0 <= j < b.len(),
    ensures
        stone_count(b.take(j + 1)) == stone_count(b.take(j)) + b[j].len(),
{
    assert(b.take(j + 1).drop_last() =~= b.take(j));
}

pub proof fn lemma_stone_count_prefix(b: Board, j: int)
    requires
        0 <= j <= b.len(),
    ensures
        stone_count(b.take(j)) <= stone_count(b),
    decreases b.len() - j,
{
    if j < b.len() {
        lemma_stone_count_take(b, j);
        lemma_stone_count_prefix(b, j + 1);
    } else {
        assert(b.take(j) =~= b);
    }
}

} // verus!
