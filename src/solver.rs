//! Exact solver: negamax with alpha-beta pruning, a transposition table and
//! an opening book, driven by null-window searches.
use vstd::prelude::*;
use crate::board::{board_after, column_open, empty_board, symmetric_code};
use crate::book::{OpeningBook, book_score, score_in_range};
use crate::moves::SortedMoves;
use crate::position::{BOARD_MASK, InvalidMove, Position, bit, first_invalid, usize_columns};
use crate::table::{MRUTable, lemma_keys_apart, partial_key, slot_key, slot_value};
use crate::value::{
    all_moves_lose, best_safe_reply, game_value, lemma_best_safe_floor, lemma_best_safe_upper,
    lemma_safe_moves_keep_value, lemma_value_bounds, lemma_value_when_all_moves_lose, lose_next_score, move_worth,
    safe_column, win_now_score,
};

verus! {

/// Score of a bound packed in a byte: the byte read as a signed number,
/// halved.
pub open spec fn bound_score(b: u8) -> int {
    (if b < 128 {
        b as int
    } else {
        b as int - 256
    }) / 2
}

/// A packed bound: the score shifted left by one, with the low bit set for
/// a lower bound and clear for an upper bound.
struct Bound(u8);

impl Bound {
    fn new_upper(v: i32) -> (r: Bound)
        requires
            -64 <= v < 64,
        ensures
            bound_score(r.0) == v,
            r.0 % 2 == 0,
    {
        let b = ((v as i8) << 1u8) as u8;
        proof {
            assert(-64 <= v < 64 ==> ({
                let b = ((v as i8) << 1u8) as u8;
                &&& (b as i8 >> 1u8) as i32 == v
                &&& b & 1 == 0
            })) by (bit_vector);
            Self::lemma_score(b);
        }
        Bound(b)
    }

    fn new_lower(v: i32) -> (r: Bound)
        requires
            -64 <= v < 64,
        ensures
            bound_score(r.0) == v,
            r.0 % 2 == 1,
    {
        let b = ((v as i8) << 1u8) as u8 | 1;
        proof {
            assert(-64 <= v < 64 ==> ({
                let b = ((v as i8) << 1u8) as u8 | 1;
                &&& (b as i8 >> 1u8) as i32 == v
                &&& b & 1 == 1
            })) by (bit_vector);
            Self::lemma_score(b);
        }
        Bound(b)
    }

    proof fn lemma_score(b: u8)
        ensures
            ((b as i8) >> 1u8) as int == bound_score(b),
            (b & 1 == 1) == (b % 2 == 1),
            (b & 1 == 0) == (b % 2 == 0),
            -64 <= bound_score(b) < 64,
    {
        assert(((b as i8) >> 1u8) as int * 2 + (b & 1) as int == if b < 128 {
            b as int
        } else {
            b as int - 256
        }) by (bit_vector);
        assert((b & 1 == 1) == (b % 2 == 1) && (b & 1 == 0) == (b % 2 == 0) && (b & 1) <= 1) by (bit_vector);
    }

    fn value(&self) -> (r: i32)
        ensures
            r == bound_score(self.0),
    {
        proof {
            Self::lemma_score(self.0);
        }
        ((self.0 as i8) >> 1u8) as i32
    }

    fn is_lower(&self) -> (r: bool)
        ensures
            r == (self.0 % 2 == 1),
    {
        proof {
            Self::lemma_score(self.0);
        }
        self.0 & 1 == 1
    }

    fn is_upper(&self) -> (r: bool)
        ensures
            r == (self.0 % 2 == 0),
    {
        proof {
            Self::lemma_score(self.0);
        }
        self.0 & 1 == 0
    }
}

/// Columns in the order the search tries them: center first.
pub const COLUMN_ORDER: [usize; 7] = [3, 2, 4, 1, 5, 0, 6];

/// Positions with at most this many stones have their moves sorted by
/// `score_move` before they are searched.
pub const SORT_MOVES_UP_TO: usize = 14;

/// `r` is what a fail-soft search in the window (`alpha`, `beta`) may
/// return for a position of value `v`: an upper bound of `v` when at most
/// `alpha`, a lower bound when at least `beta`, and `v` itself in between.
pub open spec fn fail_soft(v: int, r: int, alpha: int, beta: int) -> bool {
    &&& r <= alpha ==> v <= r
    &&& r >= beta ==> v >= r
    &&& alpha < r < beta ==> v == r
}

/// Key of a position: stones of the side to move plus all stones.
pub open spec fn position_key(x: Position) -> int {
    x.own_bits() + x.occupied_bits()
}

/// A packed bound holds of the value `v`: as a lower bound when its low
/// bit is set, else as an upper bound.
pub open spec fn bound_holds(b: u8, v: int) -> bool {
    if b % 2 == 1 {
        v >= bound_score(b)
    } else {
        v <= bound_score(b)
    }
}

/// Every score in the range of scores that the book holds is the value of
/// its position.
pub open spec fn book_sound(book: OpeningBook) -> bool {
    forall|x: Position|
        x.wf() && x.spec_n_moves() <= book.depth() && x.spec_n_moves() <= 33 && #[trigger] book.table().lookup(
            symmetric_code(x@) as u64,
        ) is Some && score_in_range(book_score(book.table().lookup(symmetric_code(x@) as u64)->0))
            ==> book_score(book.table().lookup(symmetric_code(x@) as u64)->0) == game_value(x)
}

pub struct Solver {
    table: MRUTable,
    book: OpeningBook,
    /// The position each used slot of the table was last written for.
    stored: Ghost<Map<int, Position>>,
}

impl Solver {
    /// The table holds bounds of scores only, keeps 32 bits of each key and
    /// has an odd number of slots, at least `2^17`.
    pub closed spec fn wf(self) -> bool {
        &&& self.table.wf()
        &&& self.book.wf()
        &&& !self.table.narrow_keys()
        &&& self.table.slots().len() >= 0x2_0000
        &&& self.table.slots().len() % 2 == 1
        &&& forall|i: int|
            0 <= i < self.table.slots().len() && #[trigger] self.table.slots()[i] is Some
                ==> score_in_range(bound_score(slot_value(self.table.slots()[i])))
    }

    spec fn stored_ok(self, i: int) -> bool {
        let x = self.stored@[i];
        &&& x.wf()
        &&& self.table.slot_of(position_key(x) as u64) == i
        &&& slot_key(self.table.slots()[i]) == partial_key(position_key(x) as u64, false)
        &&& bound_holds(slot_value(self.table.slots()[i]), game_value(x))
    }

    /// The book is sound, and each bound in the table holds of the value of
    /// the position it was stored for.
    pub closed spec fn sound(self) -> bool {
        &&& book_sound(self.book)
        &&& forall|i: int|
            0 <= i < self.table.slots().len() && #[trigger] self.table.slots()[i] is Some ==> self.stored_ok(i)
    }

    /// A solver with an empty transposition table of about `2^23` slots and
    /// the given opening book; its scores are the values of the positions
    /// when every score in the book is.
    pub fn with_book(book: OpeningBook) -> (r: Solver)
        requires
            book.wf(),
        ensures
            r.wf(),
            r.sound() == book_sound(book),
    {
        proof {
            assert((1u64 << 23u64) == 0x80_0000) by (bit_vector);
            assert(usize::MAX >= 0xffff_ffff);
        }
        let table = MRUTable::new(23);
        Solver { table, book, stored: Ghost(Map::empty()) }
    }

    /// A solver with no opening book, whose scores are the values of the
    /// positions.
    pub fn new() -> (r: Solver)
        ensures
            r.wf(),
            r.sound(),
    {
        let book = OpeningBook::empty();
        proof {
            assert forall|x: Position|
                x.wf() && x.spec_n_moves() <= book.depth() && x.spec_n_moves() <= 33 && #[trigger] book.table().lookup(
                    symmetric_code(x@) as u64,
                ) is Some && score_in_range(book_score(book.table().lookup(symmetric_code(x@) as u64)->0))
                    implies book_score(book.table().lookup(symmetric_code(x@) as u64)->0) == game_value(x) by {
            }
        }
        Self::with_book(book)
    }

    /// The table's bound for a position holds of its value.
    proof fn lemma_stored_bound(self, p: Position, v: u8)
        requires
            self.wf(),
            self.sound(),
            p.wf(),
            self.table.lookup(position_key(p) as u64) == Some(v),
        ensures
            bound_holds(v, game_value(p)),
    {
        p.lemma_bits_on_board();
        let own = p.own_bits();
        let occ = p.occupied_bits();
        assert(own & !crate::position::BOARD_MASK == 0 && occ & !crate::position::BOARD_MASK == 0 ==> own + occ < 0x2_0000_0000_0000) by (bit_vector);
        let k = position_key(p) as u64;
        self.table.lemma_slot_in_range(k);
        let i = self.table.slot_of(k);
        assert(self.stored_ok(i));
        let x = self.stored@[i];
        x.lemma_bits_on_board();
        let xo = x.own_bits();
        let xc = x.occupied_bits();
        assert(xo & !crate::position::BOARD_MASK == 0 && xc & !crate::position::BOARD_MASK == 0 ==> xo + xc < 0x2_0000_0000_0000) by (bit_vector);
        let kx = position_key(x) as u64;
        assert(kx as u32 == k as u32 ==> kx % 0x1_0000_0000 == k % 0x1_0000_0000) by (bit_vector);
        lemma_keys_apart(self.table.slots().len() as int, kx as int, k as int);
        Position::lemma_key_distinct(x, p);
        Position::lemma_same_bits(x, p);
    }

    /// Stores bound `b` for `position`, whose key is `key`.
    fn store(&mut self, position: &Position, key: u64, b: u8)
        requires
            old(self).wf(),
            position.wf(),
            key == position_key(*position),
            score_in_range(bound_score(b)),
        ensures
            final(self).wf(),
            old(self).sound() && bound_holds(b, game_value(*position)) ==> final(self).sound(),
    {
        let ghost t0 = self.table;
        proof {
            t0.lemma_slot_in_range(key);
        }
        self.table.put(key, b);
        let ghost i = t0.slot_of(key);
        self.stored = Ghost(self.stored@.insert(i, *position));
        proof {
            assert forall|x: int|
                0 <= x < self.table.slots().len() && #[trigger] self.table.slots()[x] is Some implies score_in_range(
                bound_score(slot_value(self.table.slots()[x])),
            ) by {
                if x != i {
                    assert(self.table.slots()[x] == t0.slots()[x]);
                }
            }
            if old(self).sound() && bound_holds(b, game_value(*position)) {
                assert forall|x: int|
                    0 <= x < self.table.slots().len() && #[trigger] self.table.slots()[x] is Some implies self.stored_ok(x) by {
                    if x != i {
                        assert(self.table.slots()[x] == t0.slots()[x]);
                        assert(old(self).stored_ok(x));
                    }
                }
            }
        }
    }

    /// Fail-soft alpha-beta search of `position` in the window
    /// `(alpha, beta)`; scores count moves left before a forced win (> 0)
    /// or loss (< 0) of the side to move, who cannot win with its next stone.
    fn negamax(&mut self, position: &Position, alpha0: i32, beta0: i32) -> (r: i32)
        requires
            old(self).wf(),
            position.wf(),
            !position.spec_can_win_next(),
            alpha0 < beta0,
        ensures
            final(self).wf(),
            score_in_range(r as int),
            position.spec_remaining_moves() == 0 ==> r == 0,
            all_moves_lose(*position) ==> r == lose_next_score(*position),
            !all_moves_lose(*position) && position.spec_remaining_moves() <= 2 ==> r == 0,
            all_moves_lose(*position) || position.spec_remaining_moves() <= 2 ==> *final(self) == *old(self),
            old(self).sound() ==> final(self).sound(),
            old(self).sound() ==> fail_soft(game_value(*position), r as int, alpha0 as int, beta0 as int),
        decreases 42 - position.spec_n_moves(),
    {
        let ghost p = *position;
        let ghost v = game_value(p);
        let ghost was_sound = self.sound();
        let ghost alpha_in = alpha0 as int;
        let ghost beta_in = beta0 as int;
        let mut alpha = alpha0;
        let mut beta = beta0;
        let possible_non_losing_moves = position.possible_non_losing_moves();
        let rem = position.remaining_moves();
        proof {
            position.lemma_bits_on_board();
            if rem == 0 {
                assert forall|c: int| 0 <= c < 7 && column_open(position@, c) implies #[trigger] position.spec_played(c).spec_can_win_next() by {
                    crate::board::lemma_stone_count_bound(position@, c);
                }
            }
            if all_moves_lose(p) && p.spec_n_moves() < 42 {
                lemma_value_when_all_moves_lose(p);
            }
        }
        if possible_non_losing_moves == 0 {
            return -((rem / 2) as i32);
        }
        proof {
            let c = choose|c: int| 0 <= c < 7 && column_open(p@, c) && !#[trigger] p.spec_played(c).spec_can_win_next();
            assert(safe_column(p, c));
            lemma_value_bounds(p);
            lemma_safe_moves_keep_value(p);
            lemma_best_safe_floor(p, 0, c);
            p.lemma_spec_played(c);
            lemma_value_bounds(p.spec_played(c));
        }
        if rem <= 2 {
            return 0;
        }
        let key = position.key();
        proof {
            self.table.lemma_slot_in_range(key);
        }
        let (min, max) = match self.table.get(key) {
            None => (-(((rem - 2) / 2) as i32), ((rem - 1) / 2) as i32),
            Some(b) => {
                proof {
                    if was_sound {
                        self.lemma_stored_bound(p, b);
                    }
                }
                let bound = Bound(b);
                if bound.is_lower() {
                    (bound.value(), ((rem - 1) / 2) as i32)
                } else if bound.is_upper() {
                    (-(((rem - 2) / 2) as i32), bound.value())
                } else {
                    (-(((rem - 2) / 2) as i32), ((rem - 1) / 2) as i32)
                }
            },
        };
        proof {
            assert(was_sound ==> min <= v <= max);
        }
        if alpha < min {
            alpha = min;
            if alpha >= beta {
                return alpha;
            }
        }
        if beta > max {
            beta = max;
            if alpha >= beta {
                return beta;
            }
        }
        let ghost alpha1 = alpha as int;
        if let Some(score) = self.book.get(position) {
            // a stored score outside the range of scores is no answer
            if -21 <= score && score <= 21 {
                proof {
                    if was_sound {
                        assert(self.book.table().lookup(symmetric_code(p@) as u64) is Some);
                    }
                }
                return score;
            }
        }
        let sort_moves = position.n_moves() <= SORT_MOVES_UP_TO;
        let mut moves = SortedMoves::new();
        let mut i: usize = 0;
        while i < 7
            invariant
                position.wf(),
                p == *position,
                was_sound == old(self).sound(),
                moves.wf(),
                i <= 7,
                moves@.len() <= i,
                possible_non_losing_moves & !BOARD_MASK == 0,
                forall|c: u64, row: u64|
                    c < 7 && row < 6 ==> (#[trigger] bit(possible_non_losing_moves, (c * 7 + row) as u64)
                        == position.safe_cell(c, row)),
                forall|j: int| 0 <= j < moves@.len() ==> safe_column(p, #[trigger] moves@[j].0 as int),
                forall|k: int|
                    0 <= k < i && safe_column(p, #[trigger] COLUMN_ORDER@[k] as int) ==> exists|j: int|
                        0 <= j < moves@.len() && #[trigger] moves@[j].0 == COLUMN_ORDER@[k],
            decreases 7 - i,
        {
            let col = COLUMN_ORDER[i];
            let move_bit = possible_non_losing_moves & Position::column_mask(col);
            let ghost m0 = moves@;
            proof {
                if safe_column(p, col as int) {
                    position.lemma_safe_column(col as int);
                    Position::lemma_column_meets(possible_non_losing_moves, col as u64, p.height(col as int) as u64);
                }
            }
            if move_bit != 0 {
                proof {
                    Position::lemma_column_cell(possible_non_losing_moves, col as u64);
                    let row = choose|row: u64| row < 6 && #[trigger] bit(possible_non_losing_moves, (col as u64 * 7 + row) as u64);
                    assert(column_open(position@, col as int));
                    position.lemma_safe_column(col as int);
                    assert(safe_column(p, col as int));
                    assert(possible_non_losing_moves & !BOARD_MASK == 0 ==> (possible_non_losing_moves & Position::spec_column_mask(col as int)) & !BOARD_MASK == 0) by (bit_vector);
                }
                if sort_moves {
                    let s = position.score_move(move_bit);
                    moves.insert_sorted(col, s);
                    proof {
                        let k = choose|k: int|
                            0 <= k <= m0.len() && (forall|x: int| 0 <= x < k ==> #[trigger] m0[x].1 >= s)
                                && (forall|x: int| k <= x < m0.len() ==> #[trigger] m0[x].1 < s)
                                && moves@ == m0.take(k).push((col, s)) + m0.skip(k);
                        assert forall|j: int| 0 <= j < moves@.len() implies safe_column(p, #[trigger] moves@[j].0 as int) by {
                            if j < k {
                                assert(moves@[j] == m0[j]);
                            } else if j > k {
                                assert(moves@[j] == m0[j - 1]);
                            }
                        }
                        assert forall|kk: int|
                            0 <= kk < i + 1 && safe_column(p, #[trigger] COLUMN_ORDER@[kk] as int) implies exists|j: int|
                                0 <= j < moves@.len() && #[trigger] moves@[j].0 == COLUMN_ORDER@[kk] by {
                            if kk < i {
                                let j0 = choose|j: int| 0 <= j < m0.len() && #[trigger] m0[j].0 == COLUMN_ORDER@[kk];
                                if j0 < k {
                                    assert(moves@[j0] == m0[j0]);
                                } else {
                                    assert(moves@[j0 + 1] == m0[j0]);
                                }
                            } else {
                                assert(moves@[k].0 == col);
                            }
                        }
                    }
                } else {
                    moves.insert(col);
                    proof {
                        assert forall|j: int| 0 <= j < moves@.len() implies safe_column(p, #[trigger] moves@[j].0 as int) by {
                            if j < m0.len() {
                                assert(moves@[j] == m0[j]);
                            }
                        }
                        assert forall|kk: int|
                            0 <= kk < i + 1 && safe_column(p, #[trigger] COLUMN_ORDER@[kk] as int) implies exists|j: int|
                                0 <= j < moves@.len() && #[trigger] moves@[j].0 == COLUMN_ORDER@[kk] by {
                            if kk < i {
                                let j0 = choose|j: int| 0 <= j < m0.len() && #[trigger] m0[j].0 == COLUMN_ORDER@[kk];
                                assert(moves@[j0] == m0[j0]);
                            } else {
                                assert(moves@[m0.len() as int].0 == col);
                            }
                        }
                    }
                }
            } else {
                proof {
                    assert(!safe_column(p, col as int));
                }
            }
            i = i + 1;
        }
        proof {
            assert forall|d: int| #[trigger] safe_column(p, d) implies exists|j: int|
                0 <= j < moves@.len() && #[trigger] moves@[j].0 == d by {
                let k: int = if d == 3 { 0 } else if d == 2 { 1 } else if d == 4 { 2 } else if d == 1 { 3 } else if d == 5 { 4 } else if d == 0 { 5 } else { 6 };
                assert(COLUMN_ORDER@[k] == d);
            }
        }
        let ghost beta1 = beta as int;
        let ghost mut raised = false;
        let mut j: usize = 0;
        while j < moves.len()
            invariant
                self.wf(),
                position.wf(),
                p == *position,
                v == game_value(p),
                moves.wf(),
                j <= moves@.len(),
                forall|x: int| 0 <= x < moves@.len() ==> safe_column(p, #[trigger] moves@[x].0 as int),
                forall|d: int| #[trigger] safe_column(p, d) ==> exists|x: int|
                    0 <= x < moves@.len() && #[trigger] moves@[x].0 == d,
                -21 <= alpha < beta <= 21,
                beta == beta1,
                alpha1 <= alpha,
                key == position_key(p),
                42 - position.spec_n_moves() > 2,
                !all_moves_lose(*position),
                !position.spec_can_win_next(),
                was_sound ==> self.sound(),
                was_sound == old(self).sound(),
                alpha_in == alpha0 as int,
                beta_in == beta0 as int,
                was_sound ==> v == best_safe_reply(p, 0),
                was_sound ==> (alpha1 == alpha_in || v >= alpha1),
                was_sound ==> (beta1 == beta_in || v <= beta1),
                was_sound ==> beta1 <= beta_in && alpha_in <= alpha1,
                was_sound ==> forall|x: int| 0 <= x < j ==> -game_value(p.spec_played(#[trigger] moves@[x].0 as int)) <= alpha,
                was_sound && raised ==> exists|d: int| #[trigger] safe_column(p, d) && -game_value(p.spec_played(d)) == alpha,
                !raised ==> alpha == alpha1,
            decreases moves@.len() - j,
        {
            let col = moves.column(j);
            let next = position.played(col);
            proof {
                assert(safe_column(p, col as int));
            }
            let child = self.negamax(&next, -beta, -alpha);
            let score = -child;
            proof {
                if was_sound {
                    lemma_best_safe_floor(p, 0, col as int);
                }
            }
            if score >= beta {
                proof {
                    if was_sound {
                        assert(next == p.spec_played(col as int));
                        assert(game_value(next) <= child);
                        assert(v >= score);
                    }
                }
                let bound = Bound::new_lower(score);
                proof {
                    if was_sound {
                        assert(bound_holds(bound.0, game_value(*position)));
                        assert(self.sound());
                    }
                }
                self.store(position, key, bound.0);
                proof {
                    if was_sound {
                        assert(self.sound());
                        assert(fail_soft(v, score as int, alpha_in, beta_in));
                    }
                }
                return score;
            }
            if score > alpha {
                alpha = score;
                proof {
                    raised = true;
                }
            }
            j = j + 1;
        }
        proof {
            if was_sound {
                assert forall|d: int| 0 <= d < 7 && #[trigger] safe_column(p, d) implies -game_value(p.spec_played(d)) <= alpha by {
                    let x = choose|x: int| 0 <= x < moves@.len() && #[trigger] moves@[x].0 == d;
                }
                lemma_best_safe_upper(p, 0, alpha as int);
                if raised {
                    let d = choose|d: int| #[trigger] safe_column(p, d) && -game_value(p.spec_played(d)) == alpha;
                    lemma_best_safe_floor(p, 0, d);
                }
            }
        }
        self.store(position, key, Bound::new_upper(alpha).0);
        alpha
    }
}

/// -1, 0 or 1 as `x` is negative, zero or positive.
pub open spec fn sign(x: int) -> int {
    if x > 0 {
        1
    } else if x < 0 {
        -1
    } else {
        0
    }
}

/// `x / 2` rounded toward zero.
fn half(x: i32) -> (r: i32)
    requires
        -64 <= x <= 64,
    ensures
        x >= 0 ==> r == x / 2,
        x < 0 ==> r == -((-x) / 2),
{
    if x >= 0 {
        x / 2
    } else {
        -((-x) / 2)
    }
}

impl Solver {
    /// The score of `position`: exact unless `weak`, in which case only its
    /// sign (win, draw or loss) is sure. A win with the next stone is found
    /// without search.
    pub fn solve(&mut self, position: &Position, weak: bool) -> (r: i32)
        requires
            old(self).wf(),
            position.wf(),
        ensures
            final(self).wf(),
            score_in_range(r as int),
            position.spec_can_win_next() ==> r == win_now_score(*position),
            position.spec_remaining_moves() == 0 ==> r == 0,
            !weak && !position.spec_can_win_next() && all_moves_lose(*position) ==> r
                == lose_next_score(*position),
            position.spec_can_win_next() ==> r == game_value(*position),
            position.spec_remaining_moves() == 0 ==> r == game_value(*position),
            !weak && all_moves_lose(*position) ==> r == game_value(*position),
            old(self).sound() ==> final(self).sound(),
            old(self).sound() && !weak ==> r == game_value(*position),
            old(self).sound() && weak ==> sign(r as int) == sign(game_value(*position)),
    {
        let ghost was_sound = self.sound();
        let ghost v = game_value(*position);
        proof {
            lemma_value_bounds(*position);
            position.lemma_bits_on_board();
            if position.spec_can_win_next() && position.spec_n_moves() >= 42 {
                let d = choose|d: int| #[trigger] position.winning_column(d);
                crate::board::lemma_stone_count_bound(position@, d);
            }
            if all_moves_lose(*position) && !position.spec_can_win_next() && position.spec_n_moves() < 42 {
                lemma_value_when_all_moves_lose(*position);
            }
        }
        let rem = position.remaining_moves();
        if position.can_win_next() {
            return ((rem + 1) / 2) as i32;
        }
        let (mut min, mut max) = if weak {
            (-1i32, 1i32)
        } else {
            let n = rem as i32;
            (-(n / 2), (n + 1) / 2)
        };
        while min < max
            invariant
                self.wf(),
                position.wf(),
                -21 <= min <= 21,
                -21 <= max <= 21,
                rem == position.spec_remaining_moves(),
                rem == 0 ==> -1 <= min <= 0 <= max <= 1,
                !position.spec_can_win_next(),
                !weak && all_moves_lose(*position) ==> min == lose_next_score(*position) && min <= max,
                was_sound == old(self).sound(),
                v == game_value(*position),
                was_sound ==> self.sound(),
                was_sound && !weak ==> min <= v <= max,
                was_sound && weak ==> sign(min as int) <= sign(v) <= sign(max as int),
            decreases if min < max {
                max - min
            } else {
                0
            },
        {
            let mut m = min + (max - min) / 2;
            if m <= 0 && m > half(min) {
                m = half(min);
            } else if m >= 0 && m < half(max) {
                m = half(max);
            }
            assert(min <= m < max);
            let score = self.negamax(position, m, m + 1);
            if score <= m {
                max = score;
            } else {
                min = score;
            }
        }
        min
    }

    /// One entry per column: `None` for a full column, else the score of
    /// playing there, for the side to move.
    pub fn analyze(&mut self, position: &Position, weak: bool) -> (r: [Option<i32>; 7])
        requires
            old(self).wf(),
            position.wf(),
        ensures
            final(self).wf(),
            forall|c: int| 0 <= c < 7 ==> (#[trigger] r@[c] is Some <==> column_open(position@, c)),
            forall|c: int|
                0 <= c < 7 && #[trigger] position.winning_column(c) ==> r@[c] == Some(
                    win_now_score(*position) as i32,
                ),
            forall|c: int| 0 <= c < 7 && #[trigger] r@[c] is Some ==> score_in_range(r@[c]->0 as int),
            old(self).sound() ==> final(self).sound(),
            old(self).sound() && !weak ==> forall|c: int|
                0 <= c < 7 && column_open(position@, c) && !position.winning_column(c) ==> #[trigger] r@[c]
                    == Some((-game_value(position.spec_played(c))) as i32),
            old(self).sound() && weak ==> forall|c: int|
                0 <= c < 7 && column_open(position@, c) && !position.winning_column(c) ==> sign(
                    #[trigger] r@[c]->0 as int,
                ) == sign(-game_value(position.spec_played(c))),
            old(self).sound() && !weak ==> forall|c: int|
                0 <= c < 7 && column_open(position@, c) ==> #[trigger] r@[c] == Some(
                    move_worth(*position, c) as i32,
                ),
    {
        let ghost was_sound = self.sound();
        let mut scores: [Option<i32>; 7] = [None; 7];
        let mut col: usize = 0;
        while col < 7
            invariant
                self.wf(),
                position.wf(),
                col <= 7,
                forall|c: int| 0 <= c < col ==> (#[trigger] scores@[c] is Some <==> column_open(position@, c)),
                forall|c: int| col <= c < 7 ==> #[trigger] scores@[c] is None,
                forall|c: int|
                    0 <= c < col && #[trigger] position.winning_column(c) ==> scores@[c] == Some(
                        win_now_score(*position) as i32,
                    ),
                forall|c: int| 0 <= c < 7 && #[trigger] scores@[c] is Some ==> score_in_range(scores@[c]->0 as int),
                was_sound == old(self).sound(),
                was_sound ==> self.sound(),
                was_sound && !weak ==> forall|c: int|
                    0 <= c < col && column_open(position@, c) && !position.winning_column(c) ==> #[trigger] scores@[c]
                        == Some((-game_value(position.spec_played(c))) as i32),
                was_sound && weak ==> forall|c: int|
                    0 <= c < col && column_open(position@, c) && !position.winning_column(c) ==> sign(
                        #[trigger] scores@[c]->0 as int,
                    ) == sign(-game_value(position.spec_played(c))),
            decreases 7 - col,
        {
            if position.can_play(col) {
                let score = if position.is_winning_move(col) {
                    ((position.remaining_moves() + 1) / 2) as i32
                } else {
                    proof {
                        assert(position.height(col as int) < 6);
                    }
                    -self.solve(&position.played(col), weak)
                };
                scores[col] = Some(score);
            } else {
                proof {
                    assert(!position.winning_column(col as int));
                }
            }
            col = col + 1;
        }
        scores
    }
}

/// `m` reports playable column `c` of `q`: its flags, and a score that is
/// the win score for a winning column, else minus the value of the position
/// it leads to (only its sign when `weak`), for a solver that is sound.
pub open spec fn analyzed_move_ok(q: Position, c: int, m: AnalyzedMove, sound: bool, weak: bool) -> bool {
    &&& m.col == c
    &&& m.winning == q.winning_column(c)
    &&& m.losing == q.spec_played(c).spec_can_win_next()
    &&& m.forced == q.threatened_column(c)
    &&& score_in_range(m.score as int)
    &&& m.winning ==> m.score == win_now_score(q)
    &&& sound && !weak && !m.winning ==> m.score == -game_value(q.spec_played(c))
    &&& sound && weak && !m.winning ==> sign(m.score as int) == sign(-game_value(q.spec_played(c)))
}

/// What the host shows for one playable column.
#[derive(Clone, Copy, Debug, PartialEq, Eq)]
pub struct AnalyzedMove {
    /// Column to play.
    pub col: u32,
    /// Score of the move; the higher, the better for the side to move.
    pub score: i32,
    /// Playing here wins at once.
    pub winning: bool,
    /// Playing here lets the opponent win at once.
    pub losing: bool,
    /// Not playing here lets the opponent win at once.
    pub forced: bool,
}

impl AnalyzedMove {
    pub fn new(position: &Position, col: usize, score: i32) -> (r: AnalyzedMove)
        requires
            position.wf(),
            column_open(position@, col as int),
        ensures
            r.col == col,
            r.score == score,
            r.winning == position.winning_column(col as int),
            r.losing == position.spec_played(col as int).spec_can_win_next(),
            r.forced == position.threatened_column(col as int),
    {
        let winning = position.is_winning_move(col);
        let losing = position.played(col).can_win_next();
        let forced = position.is_forced_move(col);
        AnalyzedMove { col: col as u32, score, winning, losing, forced }
    }
}

impl Solver {
    /// Solves the position reached by playing `moves` from the empty board.
    pub fn solve_moves(&mut self, moves: &[usize], weak: bool) -> (r: Result<i32, InvalidMove>)
        requires
            old(self).wf(),
        ensures
            final(self).wf(),
            r is Ok <==> board_after(empty_board(), usize_columns(moves@)) is Some,
            r matches Err(e) ==> first_invalid(empty_board(), usize_columns(moves@), e.index as int),
            r matches Ok(s) ==> score_in_range(s as int),
            old(self).sound() ==> final(self).sound(),
            old(self).sound() && !weak ==> (r matches Ok(s) ==> exists|q: Position|
                q.wf() && board_after(empty_board(), usize_columns(moves@)) == Some(q@) && s == game_value(q)),
            old(self).sound() && weak ==> (r matches Ok(s) ==> exists|q: Position|
                q.wf() && board_after(empty_board(), usize_columns(moves@)) == Some(q@) && sign(s as int)
                    == sign(game_value(q))),
    {
        let mut position = Position::new();
        match position.apply_moves(moves) {
            Ok(()) => {
                let s = self.solve(&position, weak);
                proof {
                    assert(position.wf() && board_after(empty_board(), usize_columns(moves@)) == Some(position@));
                }
                Ok(s)
            },
            Err(e) => Err(e),
        }
    }

    /// Analyzes the position reached by playing `moves` from the empty
    /// board: one entry per column, `None` for a full column.
    pub fn analyze_moves(&mut self, moves: &[usize], weak: bool) -> (r: Result<Vec<Option<AnalyzedMove>>, InvalidMove>)
        requires
            old(self).wf(),
        ensures
            final(self).wf(),
            r is Ok <==> board_after(empty_board(), usize_columns(moves@)) is Some,
            r matches Err(e) ==> first_invalid(empty_board(), usize_columns(moves@), e.index as int),
            r matches Ok(v) ==> exists|q: Position|
                q.wf() && board_after(empty_board(), usize_columns(moves@)) == Some(q@) && v@.len() == 7
                    && forall|c: int|
                    0 <= c < 7 ==> (#[trigger] v@[c] is Some <==> column_open(q@, c)) && (v@[c] is Some
                        ==> analyzed_move_ok(q, c, v@[c]->0, old(self).sound(), weak)),
            old(self).sound() ==> final(self).sound(),
    {
        let ghost was_sound = self.sound();
        let mut position = Position::new();
        match position.apply_moves(moves) {
            Ok(()) => {
                let scores = self.analyze(&position, weak);
                let mut r: Vec<Option<AnalyzedMove>> = Vec::new();
                let mut col: usize = 0;
                while col < 7
                    invariant
                        position.wf(),
                        col <= 7,
                        r@.len() == col,
                        forall|c: int| 0 <= c < 7 ==> (#[trigger] scores@[c] is Some <==> column_open(position@, c)),
                        forall|c: int| 0 <= c < col ==> (#[trigger] r@[c] is Some <==> column_open(position@, c)),
                        forall|c: int| 0 <= c < col && #[trigger] r@[c] is Some ==> analyzed_move_ok(position, c, r@[c]->0, was_sound, weak),
                        forall|c: int|
                            0 <= c < 7 && #[trigger] position.winning_column(c) ==> scores@[c] == Some(
                                win_now_score(position) as i32,
                            ),
                        forall|c: int| 0 <= c < 7 && #[trigger] scores@[c] is Some ==> score_in_range(scores@[c]->0 as int),
                        was_sound && !weak ==> forall|c: int|
                            0 <= c < 7 && column_open(position@, c) && !position.winning_column(c) ==> #[trigger] scores@[c]
                                == Some((-game_value(position.spec_played(c))) as i32),
                        was_sound && weak ==> forall|c: int|
                            0 <= c < 7 && column_open(position@, c) && !position.winning_column(c) ==> sign(
                                #[trigger] scores@[c]->0 as int,
                            ) == sign(-game_value(position.spec_played(c))),
                    decreases 7 - col,
                {
                    proof {
                        position.lemma_bits_on_board();
                        if column_open(position@, col as int) {
                            position.lemma_spec_played(col as int);
                            lemma_value_bounds(position.spec_played(col as int));
                        }
                    }
                    match scores[col] {
                        Some(score) => r.push(Some(AnalyzedMove::new(&position, col, score))),
                        None => r.push(None),
                    }
                    col = col + 1;
                }
                proof {
                    assert(board_after(empty_board(), usize_columns(moves@)) == Some(position@));
                }
                Ok(r)
            },
            Err(e) => Err(e),
        }
    }
}

impl Default for Solver {
    fn default() -> (r: Solver)
        ensures
            r.wf(),
            r.sound(),
    {
        Solver::new()
    }
}

} // verus!
