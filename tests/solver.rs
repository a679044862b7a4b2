use connect_four::position::{InvalidMove, Position};
use rand::seq::SliceRandom;
use rand::Rng;
use connect_four::solver::{AnalyzedMove, Solver};

/// Plain alpha-beta search with no table, no book and no pruning of moves.
fn negamax_reference(position: &Position, mut alpha: i32, mut beta: i32) -> i32 {
    if position.remaining_moves() == 0 {
        return 0;
    }
    if position.can_win_next() {
        return (position.remaining_moves() + 1) as i32 / 2;
    }
    let max = (position.remaining_moves() - 1) as i32 / 2;
    if beta > max {
        beta = max;
        if alpha >= beta {
            return beta;
        }
    }
    for col in [3, 2, 4, 1, 5, 0, 6] {
        if position.can_play(col) {
            let mut new_position = *position;
            new_position.play(col);
            let score = -negamax_reference(&new_position, -beta, -alpha);
            if score >= beta {
                return score;
            }
            if score > alpha {
                alpha = score;
            }
        }
    }
    alpha
}

fn all_moves() -> Vec<usize> {
    let mut v = vec![];
    for x in 0..Position::WIDTH {
        for _ in 0..Position::HEIGHT {
            v.push(x)
        }
    }
    v
}

fn test_correctness(solver: &mut Solver, moves: &[usize]) {
    let mut p = Position::default();
    p.apply_moves(moves).unwrap();
    let answer = solver.solve(&p, false);
    let reference = negamax_reference(&p, -100, 100);
    assert_eq!(answer, reference, "{:?}", moves);
}

fn random_endgame_run() {
    let rng = &mut rand::rng();
    let mut solver = Solver::default();
    let mut all_moves = all_moves();
    for _ in 0..100 {
        all_moves.shuffle(rng);
        let min = Position::AREA / 3 * 2;
        let max = Position::AREA;
        let moves = &all_moves[0..rng.random_range(min..max)];
        test_correctness(&mut solver, moves);
    }
}

#[test]
fn random_endgame() {
    random_endgame_run();
}

#[test]
fn solver_random_endgame() {
    random_endgame_run();
}

fn test_against_data(data: &str) {
    let mut solver = Solver::default();
    for line in data.lines() {
        let (moves, score) = line.split_once(' ').unwrap();
        let score = score.parse::<i32>().unwrap();
        let mut p = Position::default();
        p.apply_str(moves).unwrap();
        let solved_score = solver.solve(&p, false);
        assert_eq!(score, solved_score, "{}", moves);
    }
}

/// End-game positions with their exact scores.
const END_GAME: &str = "757242511771517123125537625466 5
163225167226733135172731515327 -6
261144545747471271455122772315 -6
551516255474653327764174422462 -1
212321121723542464614431666635 1
473213151331443636627757265267 -6
52351314237733514242111273 -7
36476374526767334417366214 -8
75774541116514573572131624 -4
71221321247565565315221315 -8";

/// Middle-game positions with their exact scores.
const MIDDLE_GAME: &str = "32461175135152115523 0
15417512665155412163 9
36435115427324416175 -11";

/// Earlier positions with their exact scores.
const EARLY_GAME: &str = "646422211257517647 6
113565726365117642 -12";

#[test]
fn data_l1r1() {
    test_against_data(EARLY_GAME);
}

#[test]
fn solver_data_l1r1() {
    test_against_data(EARLY_GAME);
}

#[test]
fn data_l3r1() {
    test_against_data(END_GAME);
}

#[test]
fn solver_data_l3r1() {
    test_against_data(END_GAME);
}

#[test]
fn data_l2r1() {
    test_against_data(MIDDLE_GAME);
}

#[test]
fn solver_data_l2r1() {
    test_against_data(MIDDLE_GAME);
}

#[test]
fn weak_solve_has_the_sign_of_exact_solve() {
    for line in END_GAME.lines().chain(MIDDLE_GAME.lines()) {
        let (moves, _) = line.split_once(' ').unwrap();
        let mut p = Position::new();
        p.apply_str(moves).unwrap();
        let exact = Solver::new().solve(&p, false);
        let weak = Solver::new().solve(&p, true);
        assert_eq!(exact.signum(), weak.signum(), "{}", moves);
    }
}

#[test]
fn mirrored_position_has_the_same_score() {
    for line in END_GAME.lines() {
        let (moves, score) = line.split_once(' ').unwrap();
        let mirrored: String = moves
            .chars()
            .map(|c| char::from_digit(8 - c.to_digit(10).unwrap(), 10).unwrap())
            .collect();
        let mut p = Position::new();
        p.apply_str(&mirrored).unwrap();
        assert_eq!(Solver::new().solve(&p, false), score.parse::<i32>().unwrap());
    }
}

#[test]
fn full_drawn_board_scores_zero() {
    let mut p = Position::new();
    p.apply_str("746336637473574166457736351524215222121451").unwrap();
    assert_eq!(p.remaining_moves(), 0);
    assert_eq!(Solver::new().solve(&p, false), 0);
    assert_eq!(Solver::new().solve(&p, true), 0);
    // one move before the end the last stone cannot win
    let mut q = Position::new();
    q.apply_str("74633663747357416645773635152421522212145").unwrap();
    assert_eq!(Solver::new().solve(&q, false), 0);
}

#[test]
fn immediate_win_is_scored_without_search() {
    let mut p = Position::new();
    p.apply_str("121212").unwrap();
    // 36 cells left: a win with the next stone scores 18
    assert_eq!(Solver::new().solve(&p, false), 18);
    assert_eq!(Solver::new().solve(&p, true), 18);
}

#[test]
fn analyze_gives_one_entry_per_column() {
    for moves in ["757242511771517123125537625466", "551516255474653327764174422462"] {
        let mut p = Position::new();
        p.apply_str(moves).unwrap();
        let scores = Solver::new().analyze(&p, false);
        for col in 0..7 {
            assert_eq!(scores[col].is_some(), p.can_play(col), "{} {}", moves, col);
            if p.can_play(col) {
                let expected = if p.is_winning_move(col) {
                    (p.remaining_moves() as i32 + 1) / 2
                } else {
                    -negamax_reference(&p.played(col), -100, 100)
                };
                assert_eq!(scores[col], Some(expected), "{} {}", moves, col);
            }
        }
    }
}

#[test]
fn analyze_finds_the_immediate_win() {
    let mut p = Position::new();
    p.apply_str("27431475612667316366545723354545").unwrap();
    assert!(p.can_win_next());
    let scores = Solver::new().analyze(&p, false);
    let mut wins = 0;
    for col in 0..7 {
        if p.is_winning_move(col) {
            // 10 cells left: a win with the next stone scores 5
            assert_eq!(scores[col], Some(5));
            wins += 1;
        }
    }
    assert!(wins > 0);
}

#[test]
fn analyze_scores_children_from_the_mover_side() {
    let mut p = Position::new();
    p.apply_str("52351314237733514242111273").unwrap();
    let scores = Solver::new().analyze(&p, false);
    let best = scores.iter().filter_map(|s| *s).max().unwrap();
    assert_eq!(best, -7);
    for col in 0..7 {
        if let Some(s) = scores[col] {
            let mut q = p;
            q.play(col);
            assert_eq!(s, -negamax_reference(&q, -100, 100));
        }
    }
}

#[test]
fn solve_moves_rejects_invalid_move() {
    let mut solver = Solver::new();
    assert_eq!(solver.solve_moves(&[0, 0, 0, 0, 0, 0, 0], false), Err(InvalidMove { index: 6 }));
    assert_eq!(solver.solve_moves(&[9], false), Err(InvalidMove { index: 0 }));
    assert_eq!(solver.solve_moves(&[0, 1, 0, 1, 0, 1], true), Ok(18));
}

#[test]
fn analyze_moves_reports_flags() {
    let mut solver = Solver::new();
    // side to move has three in column 1, the opponent three in column 2
    let r = solver.analyze_moves(&[0, 1, 0, 1, 0, 1], false).unwrap();
    assert_eq!(r.len(), 7);
    let win: AnalyzedMove = r[0].unwrap();
    assert_eq!(win.col, 0);
    assert!(win.winning);
    assert!(win.forced == false);
    assert_eq!(win.score, 18);
    let block = r[1].unwrap();
    assert!(block.forced);
    assert!(!block.winning);
    let other = r[2].unwrap();
    assert!(other.losing);
    assert_eq!(solver.analyze_moves(&[0, 0, 0, 0, 0, 0, 0], false).err(), Some(InvalidMove { index: 6 }));
}
