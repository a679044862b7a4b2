use connect_four::position::{InvalidMove, Position};

fn from_str(s: &str) -> Position {
    let mut p = Position::new();
    p.apply_str(s).expect("valid moves");
    p
}

fn mirrored(s: &str) -> String {
    s.chars()
        .map(|c| char::from_digit(8 - c.to_digit(10).unwrap(), 10).unwrap())
        .collect()
}

fn cell(col: u64, row: u64) -> u64 {
    1u64 << (col * 7 + row)
}

#[test]
fn empty_board_basics() {
    let p = Position::new();
    assert_eq!(p.n_moves(), 0);
    assert_eq!(p.remaining_moves(), 42);
    assert_eq!(p.key(), 0);
    for col in 0..7 {
        assert!(p.can_play(col));
    }
    let mut possible = 0u64;
    for col in 0..7 {
        possible |= cell(col, 0);
    }
    assert_eq!(p.possible_moves(), possible);
    assert_eq!(p.winning_moves(), 0);
    assert!(!p.can_win_next());
}

#[test]
fn default_is_empty() {
    let p = Position::default();
    assert_eq!(p.n_moves(), 0);
    assert_eq!(p.key(), Position::new().key());
}

#[test]
fn column_masks() {
    assert_eq!(Position::column_mask(0), 0b111111);
    assert_eq!(Position::column_mask(3), 0b111111 << 21);
    assert_eq!(Position::column_mask(6), 0b111111 << 42);
}

#[test]
fn play_stacks_and_swaps_sides() {
    let mut p = Position::new();
    p.play(3);
    assert_eq!(p.n_moves(), 1);
    // the stone belongs to the player who just moved, now the opponent
    assert_eq!(p.opponent_winning_moves(), 0);
    assert_eq!(p.possible_moves() & Position::column_mask(3), cell(3, 1));
    let q = p.played(3);
    assert_eq!(p.n_moves(), 1);
    assert_eq!(q.n_moves(), 2);
    assert_eq!(q.possible_moves() & Position::column_mask(3), cell(3, 2));
}

#[test]
fn full_column_cannot_be_played() {
    let p = from_str("444444");
    assert!(!p.can_play(3));
    assert!(p.can_play(2));
    assert_eq!(p.possible_moves() & Position::column_mask(3), 0);
}

#[test]
fn apply_str_rejects_full_column() {
    let mut p = Position::new();
    let before = p.key();
    assert_eq!(p.apply_str("1111111"), Err(InvalidMove { index: 6 }));
    assert_eq!(p.key(), before);
    assert_eq!(p.n_moves(), 0);
}

#[test]
fn apply_str_rejects_non_digit() {
    let mut p = Position::new();
    assert_eq!(p.apply_str("12a3"), Err(InvalidMove { index: 2 }));
    assert_eq!(p.apply_str("180"), Err(InvalidMove { index: 1 }));
    assert_eq!(p.n_moves(), 0);
}

#[test]
fn apply_moves_counts_moves() {
    let mut p = Position::new();
    let moves = [3usize, 3, 2, 4, 0, 6, 5];
    assert_eq!(p.apply_moves(&moves), Ok(()));
    assert_eq!(p.n_moves(), moves.len());
    assert_eq!(p.remaining_moves(), 42 - moves.len());
}

#[test]
fn apply_moves_rejects_bad_column() {
    let mut p = Position::new();
    assert_eq!(p.apply_moves(&[0, 7]), Err(InvalidMove { index: 1 }));
    assert_eq!(p.n_moves(), 0);
}

#[test]
fn keys_differ_between_positions() {
    let seqs = ["", "4", "44", "43", "34", "434", "443", "1234567", "7654312"];
    let keys: Vec<u64> = seqs.iter().map(|s| from_str(s).key()).collect();
    for i in 0..keys.len() {
        for j in 0..keys.len() {
            if i != j {
                assert_ne!(keys[i], keys[j], "{} {}", seqs[i], seqs[j]);
            }
        }
    }
    // same stones reached in another order
    assert_eq!(from_str("4354").key(), from_str("5344").key());
}

#[test]
fn vertical_threat() {
    // side to move has three stones in column 1
    let p = from_str("121212");
    assert!(p.can_win_next());
    assert!(p.is_winning_move(0));
    assert!(!p.is_winning_move(1));
    assert_eq!(p.winning_moves(), cell(0, 3));
}

#[test]
fn horizontal_threats_on_both_ends() {
    // side to move has columns 2, 3, 4 on the bottom row
    let p = from_str("223344");
    assert_eq!(p.winning_moves(), cell(0, 0) | cell(4, 0));
    assert!(p.is_winning_move(0));
    assert!(p.is_winning_move(4));
}

#[test]
fn forced_move_blocks_single_threat() {
    // the opponent has three stones in column 1; the side to move must block
    let p = from_str("12131");
    assert!(!p.can_win_next());
    assert!(p.is_forced_move(0));
    assert!(!p.is_forced_move(1));
    assert_eq!(p.possible_non_losing_moves(), cell(0, 3));
}

#[test]
fn opponent_double_threat_leaves_no_safe_move() {
    // the opponent owns columns 2, 3, 4 of the bottom row: both ends are threats
    let p = from_str("2233447");
    assert!(p.is_forced_move(0));
    assert!(p.is_forced_move(4));
    assert_eq!(p.possible_non_losing_moves(), 0);
    // every legal move lets the opponent win at once
    for col in 0..7 {
        if p.can_play(col) {
            assert!(p.played(col).can_win_next());
        }
    }
}

#[test]
fn safe_moves_do_not_lose_at_once() {
    for s in [
        "",
        "4",
        "4455",
        "12345",
        "12131",
        "2233447",
        "334455",
        "163225167226733135172731515327",
        "551516255474653327764174422462",
        "52351314237733514242111273",
    ] {
        let p = from_str(s);
        let safe = p.possible_non_losing_moves();
        for col in 0..7 {
            if p.can_play(col) {
                let is_safe = safe & Position::column_mask(col) != 0;
                assert_eq!(is_safe, !p.played(col).can_win_next(), "{} {}", s, col);
            }
        }
    }
}

#[test]
fn score_move_counts_new_threats() {
    let p = from_str("2233");
    // a stone on the bottom of column 4 makes threats on both ends of the row
    assert_eq!(p.score_move(cell(3, 0)), 2);
    assert_eq!(p.score_move(cell(6, 0)), 0);
    // the cell played is no longer empty, so it is not counted
    let q = from_str("223344");
    assert_eq!(q.score_move(cell(0, 0)), 1);
}

#[test]
fn columns_off_the_board_cannot_be_played() {
    let p = Position::new();
    assert!(!p.can_play(7));
    assert!(!p.can_play(100));
}

#[test]
fn key3_of_small_positions() {
    assert_eq!(Position::new().key3(), 0);
    // one stone of the opponent at the bottom of the first or last column:
    // read from that side, the code is the digit 2 and a closing 0
    assert_eq!(from_str("1").key3(), from_str("7").key3());
    assert_eq!(from_str("1").key3(), 2);
}

#[test]
fn key3_is_mirror_symmetric() {
    for s in ["", "1", "12", "4455", "1234567", "1122334", "7776655443"] {
        assert_eq!(from_str(s).key3(), from_str(&mirrored(s)).key3(), "{}", s);
    }
    assert_ne!(from_str("12").key3(), from_str("21").key3());
}

#[test]
fn moves_round_trip_count() {
    let s = "746336637473574166457736351524215222121451";
    for n in 0..=s.len() {
        let p = from_str(&s[..n]);
        assert_eq!(p.n_moves(), n);
    }
}
