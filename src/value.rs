//! Value of a position under perfect play, and what the search relies on
//! about it: bounds by the cells left, pruning of losing moves, and
//! symmetry under mirroring.
use vstd::prelude::*;
use crate::board::{column_open, mirror, symmetric_code};
use crate::position::Position;

verus! {

/// Value of a position under perfect play by both sides, from the side to
/// move: the score of a win with the next stone if there is one, 0 on a full
/// board, else the best of the moves, each worth minus the value of the
/// position it leads to.
pub open spec fn game_value(p: Position) -> int
    decreases 42 - p.spec_n_moves(), 8int,
{
    if !p.wf() || p.spec_n_moves() >= 42 {
        0
    } else if p.spec_can_win_next() {
        win_now_score(p)
    } else {
        best_reply(p, 0)
    }
}

/// The best value among the moves in columns `c` to 6, or -100 if none of
/// them is legal.
pub open spec fn best_reply(p: Position, c: int) -> int
    decreases 42 - p.spec_n_moves(), 7 - c,
{
    if !p.wf() || p.spec_n_moves() >= 42 || c < 0 || c >= 7 {
        -100
    } else {
        let rest = best_reply(p, c + 1);
        if column_open(p@, c) {
            proof {
                p.lemma_spec_played(c);
            }
            let v = -game_value(p.spec_played(c));
            if v > rest {
                v
            } else {
                rest
            }
        } else {
            rest
        }
    }
}

/// The best value among the moves in columns `c` to 6 that do not let the
/// opponent win with its next stone, or -100 if there is none.
pub open spec fn best_safe_reply(p: Position, c: int) -> int
    decreases 7 - c,
{
    if !p.wf() || p.spec_n_moves() >= 42 || c < 0 || c >= 7 {
        -100
    } else {
        let rest = best_safe_reply(p, c + 1);
        if column_open(p@, c) && !p.spec_played(c).spec_can_win_next() {
            let v = -game_value(p.spec_played(c));
            if v > rest {
                v
            } else {
                rest
            }
        } else {
            rest
        }
    }
}

/// The value of a position lies from minus half the cells left, rounded
/// down, to half of them, rounded up; without a win with the next stone it
/// is at most half of the cells left after that stone.
pub proof fn lemma_value_bounds(p: Position)
    requires
        p.wf(),
    ensures
        -(p.spec_remaining_moves() / 2) <= game_value(p) <= (p.spec_remaining_moves() + 1) / 2,
        !p.spec_can_win_next() && p.spec_remaining_moves() > 0 ==> game_value(p) <= (
        p.spec_remaining_moves() - 1) / 2,
    decreases 42 - p.spec_n_moves(), 8int,
{
    p.lemma_bits_on_board();
    if p.spec_n_moves() < 42 && !p.spec_can_win_next() {
        crate::board::lemma_open_column_exists(p@);
        lemma_best_reply_bounds(p, 0);
    }
}

proof fn lemma_best_reply_bounds(p: Position, c: int)
    requires
        p.wf(),
        p.spec_n_moves() < 42,
        0 <= c <= 7,
    ensures
        (exists|d: int| c <= d < 7 && #[trigger] column_open(p@, d)) ==> -(p.spec_remaining_moves()
            / 2) <= best_reply(p, c) <= (p.spec_remaining_moves() - 1) / 2,
        !(exists|d: int| c <= d < 7 && #[trigger] column_open(p@, d)) ==> best_reply(p, c) == -100,
    decreases 42 - p.spec_n_moves(), 7 - c,
{
    if c < 7 {
        lemma_best_reply_bounds(p, c + 1);
        if column_open(p@, c) {
            p.lemma_spec_played(c);
            lemma_value_bounds(p.spec_played(c));
        }
        if exists|d: int| c + 1 <= d < 7 && #[trigger] column_open(p@, d) {
            let d = choose|d: int| c + 1 <= d < 7 && #[trigger] column_open(p@, d);
            assert(c <= d < 7 && column_open(p@, d));
        }
        if exists|d: int| c <= d < 7 && #[trigger] column_open(p@, d) {
            let d = choose|d: int| c <= d < 7 && #[trigger] column_open(p@, d);
            if d != c {
                assert(c + 1 <= d < 7 && column_open(p@, d));
            }
        }
    }
}

proof fn lemma_best_reply_split(p: Position, c: int)
    requires
        p.wf(),
        p.spec_n_moves() < 42,
        0 <= c <= 7,
    ensures
        ({
            let unsafe_floor = if exists|d: int|
                c <= d < 7 && #[trigger] column_open(p@, d) && p.spec_played(d).spec_can_win_next() {
                lose_next_score(p)
            } else {
                -100
            };
            best_reply(p, c) == if best_safe_reply(p, c) >= unsafe_floor {
                best_safe_reply(p, c)
            } else {
                unsafe_floor
            }
        }),
        (exists|d: int| c <= d < 7 && #[trigger] column_open(p@, d) && !p.spec_played(d).spec_can_win_next())
            ==> best_safe_reply(p, c) >= lose_next_score(p),
    decreases 7 - c,
{
    if c < 7 {
        lemma_best_reply_split(p, c + 1);
        if column_open(p@, c) {
            let q = p.spec_played(c);
            p.lemma_spec_played(c);
            lemma_value_bounds(q);
            if q.spec_can_win_next() {
                q.lemma_bits_on_board();
                if q.spec_n_moves() >= 42 {
                    let d = choose|d: int| #[trigger] q.winning_column(d);
                    crate::board::lemma_stone_count_bound(q@, d);
                }
                assert(game_value(q) == win_now_score(q));
            }
        }
        if exists|d: int| c + 1 <= d < 7 && #[trigger] column_open(p@, d) && p.spec_played(d).spec_can_win_next() {
            let d = choose|d: int| c + 1 <= d < 7 && #[trigger] column_open(p@, d) && p.spec_played(d).spec_can_win_next();
            assert(c <= d < 7 && column_open(p@, d) && p.spec_played(d).spec_can_win_next());
        }
        if exists|d: int| c <= d < 7 && #[trigger] column_open(p@, d) && p.spec_played(d).spec_can_win_next() {
            let d = choose|d: int| c <= d < 7 && #[trigger] column_open(p@, d) && p.spec_played(d).spec_can_win_next();
            if d != c {
                assert(c + 1 <= d < 7 && column_open(p@, d) && p.spec_played(d).spec_can_win_next());
            }
        }
        if exists|d: int| c <= d < 7 && #[trigger] column_open(p@, d) && !p.spec_played(d).spec_can_win_next() {
            let d = choose|d: int| c <= d < 7 && #[trigger] column_open(p@, d) && !p.spec_played(d).spec_can_win_next();
            if d != c {
                assert(c + 1 <= d < 7 && column_open(p@, d) && !p.spec_played(d).spec_can_win_next());
            }
        }
    }
}

/// Searching only the moves that do not let the opponent win with its next
/// stone gives the value of the position, whenever such a move exists and
/// the side to move cannot win with its next stone; that value is then at
/// least minus half of the cells left after two more stones.
pub proof fn lemma_safe_moves_keep_value(p: Position)
    requires
        p.wf(),
        p.spec_n_moves() < 42,
        !p.spec_can_win_next(),
        !all_moves_lose(p),
    ensures
        game_value(p) == best_safe_reply(p, 0),
        p.spec_remaining_moves() >= 2 ==> game_value(p) >= -((p.spec_remaining_moves() - 2) / 2),
{
    lemma_best_reply_split(p, 0);
    let c = choose|c: int| 0 <= c < 7 && column_open(p@, c) && !#[trigger] p.spec_played(c).spec_can_win_next();
    assert(0 <= c < 7 && column_open(p@, c) && !p.spec_played(c).spec_can_win_next());
    lemma_best_safe_floor(p, 0, c);
}

/// The best safe reply from column `c` on is worth at least any safe move
/// `d` from there, and, with two cells or more left, at least minus half of
/// the cells left after two more stones.
pub proof fn lemma_best_safe_floor(p: Position, c: int, d: int)
    requires
        p.wf(),
        p.spec_n_moves() < 42,
        0 <= c <= d < 7,
        column_open(p@, d),
        !p.spec_played(d).spec_can_win_next(),
    ensures
        p.spec_remaining_moves() >= 2 ==> best_safe_reply(p, c) >= -((p.spec_remaining_moves() - 2) / 2),
        best_safe_reply(p, c) >= -game_value(p.spec_played(d)),
    decreases 7 - c,
{
    if c < d {
        lemma_best_safe_floor(p, c + 1, d);
    } else {
        let q = p.spec_played(d);
        p.lemma_spec_played(d);
        lemma_value_bounds(q);
    }
}

/// A column whose move does not let the opponent win with its next stone.
pub open spec fn safe_column(p: Position, c: int) -> bool {
    0 <= c < 7 && column_open(p@, c) && !p.spec_played(c).spec_can_win_next()
}

/// The best safe reply from column `c` on is worth at most any bound on the
/// worth of each safe move from there.
pub proof fn lemma_best_safe_upper(p: Position, c: int, a: int)
    requires
        p.wf(),
        p.spec_n_moves() < 42,
        0 <= c <= 7,
        a >= -100,
        forall|d: int| c <= d < 7 && #[trigger] safe_column(p, d) ==> -game_value(p.spec_played(d)) <= a,
    ensures
        best_safe_reply(p, c) <= a,
    decreases 7 - c,
{
    if c < 7 {
        lemma_best_safe_upper(p, c + 1, a);
        assert(safe_column(p, c) ==> -game_value(p.spec_played(c)) <= a);
    }
}

/// The best reply is at least every legal move's worth and, if some move
/// is legal, the worth of one of them.
proof fn lemma_best_reply_max(p: Position, c: int)
    requires
        p.wf(),
        p.spec_n_moves() < 42,
        0 <= c <= 7,
    ensures
        forall|d: int| c <= d < 7 && #[trigger] column_open(p@, d) ==> best_reply(p, c) >= -game_value(p.spec_played(d)),
        (exists|d: int| c <= d < 7 && #[trigger] column_open(p@, d)) ==> exists|d: int|
            c <= d < 7 && #[trigger] column_open(p@, d) && best_reply(p, c) == -game_value(p.spec_played(d)),
    decreases 7 - c,
{
    if c < 7 {
        lemma_best_reply_max(p, c + 1);
        if exists|d: int| c + 1 <= d < 7 && #[trigger] column_open(p@, d) {
            let d = choose|d: int| c + 1 <= d < 7 && #[trigger] column_open(p@, d) && best_reply(p, c + 1) == -game_value(p.spec_played(d));
            if column_open(p@, c) && -game_value(p.spec_played(c)) > best_reply(p, c + 1) {
                assert(c <= c < 7 && column_open(p@, c) && best_reply(p, c) == -game_value(p.spec_played(c)));
            } else {
                assert(c <= d < 7 && column_open(p@, d) && best_reply(p, c) == -game_value(p.spec_played(d)));
            }
        } else if column_open(p@, c) {
            lemma_best_reply_bounds(p, c + 1);
            p.lemma_spec_played(c);
            lemma_value_bounds(p.spec_played(c));
            assert(c <= c < 7 && column_open(p@, c) && best_reply(p, c) == -game_value(p.spec_played(c)));
        }
    }
}

/// A position and its mirror image have the same value.
pub proof fn lemma_mirror_value(p: Position, q: Position)
    requires
        p.wf(),
        q.wf(),
        q@ == mirror(p@),
    ensures
        game_value(q) == game_value(p),
    decreases 42 - p.spec_n_moves(),
{
    p.lemma_bits_on_board();
    q.lemma_bits_on_board();
    crate::board::lemma_mirror_count(p@);
    Position::lemma_mirror_threats(p, q);
    if p.spec_n_moves() < 42 && !p.spec_can_win_next() {
        assert forall|d: int| 0 <= d < 7 && column_open(p@, d) implies column_open(q@, 6 - d)
            && -game_value(q.spec_played(6 - d)) == -game_value(p.spec_played(d)) by {
            crate::board::lemma_mirror_play(p@, d);
            p.lemma_spec_played(d);
            q.lemma_spec_played(6 - d);
            lemma_mirror_value(p.spec_played(d), q.spec_played(6 - d));
        }
        assert forall|d: int| 0 <= d < 7 && column_open(q@, d) implies column_open(p@, 6 - d)
            && -game_value(q.spec_played(d)) == -game_value(p.spec_played(6 - d)) by {
            crate::board::lemma_mirror_play(p@, 6 - d);
            assert(6 - (6 - d) == d);
            p.lemma_spec_played(6 - d);
            q.lemma_spec_played(d);
            lemma_mirror_value(p.spec_played(6 - d), q.spec_played(d));
        }
        crate::board::lemma_open_column_exists(p@);
        lemma_best_reply_max(p, 0);
        lemma_best_reply_max(q, 0);
        let dp = choose|d: int| 0 <= d < 7 && #[trigger] column_open(p@, d) && best_reply(p, 0) == -game_value(p.spec_played(d));
        assert(column_open(q@, 6 - dp));
        let dq = choose|d: int| 0 <= d < 7 && #[trigger] column_open(q@, d) && best_reply(q, 0) == -game_value(q.spec_played(d));
        assert(column_open(p@, 6 - dq));
        assert(best_reply(q, 0) >= best_reply(p, 0));
        assert(best_reply(p, 0) >= best_reply(q, 0));
    }
}

/// Mirroring a position changes neither its symmetric code nor its value.
pub proof fn lemma_mirror_same_key3_and_value(p: Position, q: Position)
    requires
        p.wf(),
        q.wf(),
        q@ == mirror(p@),
    ensures
        symmetric_code(q@) == symmetric_code(p@),
        game_value(q) == game_value(p),
{
    crate::board::lemma_mirror_code(p@);
    lemma_mirror_value(p, q);
}

/// Worth of playing column `c` for the side to move: the win score if the
/// stone wins at once, else minus the value of the position it leads to.
pub open spec fn move_worth(p: Position, c: int) -> int {
    if p.winning_column(c) {
        win_now_score(p)
    } else {
        -game_value(p.spec_played(c))
    }
}

/// The best move is worth the value of the position: no legal move is
/// worth more, and some legal move is worth exactly that.
pub proof fn lemma_best_move_has_value(p: Position)
    requires
        p.wf(),
        p.spec_n_moves() < 42,
    ensures
        forall|c: int| 0 <= c < 7 && column_open(p@, c) ==> #[trigger] move_worth(p, c) <= game_value(p),
        exists|c: int| 0 <= c < 7 && #[trigger] column_open(p@, c) && move_worth(p, c) == game_value(p),
{
    p.lemma_bits_on_board();
    crate::board::lemma_open_column_exists(p@);
    if p.spec_can_win_next() {
        assert forall|c: int| 0 <= c < 7 && column_open(p@, c) implies #[trigger] move_worth(p, c) <= game_value(p) by {
            p.lemma_spec_played(c);
            lemma_value_bounds(p.spec_played(c));
        }
        let w = choose|c: int| #[trigger] p.winning_column(c);
        assert(0 <= w < 7 && column_open(p@, w) && move_worth(p, w) == game_value(p));
    } else {
        lemma_best_reply_max(p, 0);
        assert forall|c: int| 0 <= c < 7 && column_open(p@, c) implies #[trigger] move_worth(p, c) <= game_value(p) by {
            assert(!p.winning_column(c));
        }
        let d = choose|d: int| 0 <= d < 7 && #[trigger] column_open(p@, d) && best_reply(p, 0) == -game_value(p.spec_played(d));
        assert(!p.winning_column(d));
        assert(0 <= d < 7 && column_open(p@, d) && move_worth(p, d) == game_value(p));
    }
}

/// Every legal move lets the opponent win with its next stone.
pub open spec fn all_moves_lose(p: Position) -> bool {
    forall|c: int| 0 <= c < 7 && column_open(p@, c) ==> #[trigger] p.spec_played(c).spec_can_win_next()
}

proof fn lemma_best_reply_all_lose(p: Position, c: int)
    requires
        p.wf(),
        p.spec_n_moves() < 42,
        all_moves_lose(p),
        0 <= c <= 7,
    ensures
        best_reply(p, c) == if exists|d: int| c <= d < 7 && #[trigger] column_open(p@, d) {
            lose_next_score(p)
        } else {
            -100
        },
    decreases 7 - c,
{
    if c < 7 {
        lemma_best_reply_all_lose(p, c + 1);
        if column_open(p@, c) {
            p.lemma_spec_played(c);
            let q = p.spec_played(c);
            assert(q.spec_can_win_next());
            if q.spec_n_moves() >= 42 {
                let d = choose|d: int| #[trigger] q.winning_column(d);
                q.lemma_bits_on_board();
                crate::board::lemma_stone_count_bound(q@, d);
            }
            assert(game_value(q) == win_now_score(q));
        }
        if exists|d: int| c + 1 <= d < 7 && #[trigger] column_open(p@, d) {
            let d = choose|d: int| c + 1 <= d < 7 && #[trigger] column_open(p@, d);
            assert(c <= d < 7 && column_open(p@, d));
        }
    }
}

/// When every legal move lets the opponent win at once and the side to move
/// cannot win first, the position is lost as soon as possible.
pub proof fn lemma_value_when_all_moves_lose(p: Position)
    requires
        p.wf(),
        p.spec_n_moves() < 42,
        !p.spec_can_win_next(),
        all_moves_lose(p),
    ensures
        game_value(p) == lose_next_score(p),
{
    p.lemma_bits_on_board();
    crate::board::lemma_open_column_exists(p@);
    lemma_best_reply_all_lose(p, 0);
}

/// Score of a forced loss: minus half of the remaining cells, rounded down.
pub open spec fn lose_next_score(p: Position) -> int {
    -(p.spec_remaining_moves() / 2)
}

/// Score of a win with the next stone: half of the remaining cells, rounded up.
pub open spec fn win_now_score(p: Position) -> int {
    (p.spec_remaining_moves() + 1) / 2
}

} // verus!
