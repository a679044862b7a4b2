use connect_four::book::{BookFormatError, OpeningBook};
use connect_four::position::Position;
use connect_four::solver::Solver;

/// A book of two slots (log2 size 1) holding the empty board with score 5.
fn tiny_book(depth: u8) -> Vec<u8> {
    vec![7, 6, depth, 2, 1, 1, 0, 0, 0xff, 0xff, 5 + 19, 0]
}

#[test]
fn short_header_is_rejected() {
    assert_eq!(OpeningBook::from_bytes(&[7, 6, 0]).err(), Some(BookFormatError::ShortHeader));
}

#[test]
fn wrong_dimensions_are_rejected() {
    let mut b = tiny_book(0);
    b[0] = 8;
    assert_eq!(OpeningBook::from_bytes(&b).err(), Some(BookFormatError::Dimensions));
    let mut b = tiny_book(0);
    b[1] = 7;
    assert_eq!(OpeningBook::from_bytes(&b).err(), Some(BookFormatError::Dimensions));
}

#[test]
fn wrong_entry_sizes_are_rejected() {
    let mut b = tiny_book(0);
    b[3] = 4;
    assert_eq!(OpeningBook::from_bytes(&b).err(), Some(BookFormatError::EntrySizes));
    let mut b = tiny_book(0);
    b[4] = 2;
    assert_eq!(OpeningBook::from_bytes(&b).err(), Some(BookFormatError::EntrySizes));
}

#[test]
fn wrong_length_is_rejected() {
    let mut b = tiny_book(0);
    b.push(0);
    assert_eq!(OpeningBook::from_bytes(&b).err(), Some(BookFormatError::Length));
    b.truncate(11);
    assert_eq!(OpeningBook::from_bytes(&b).err(), Some(BookFormatError::Length));
}

#[test]
fn log_size_zero_means_two_slots() {
    let mut b = tiny_book(0);
    b[5] = 0;
    let book = OpeningBook::from_bytes(&b).ok().unwrap();
    assert_eq!(book.get(&Position::new()), Some(5));
}

#[test]
fn huge_table_is_a_length_error() {
    let mut b = tiny_book(0);
    b[5] = 31;
    assert_eq!(OpeningBook::from_bytes(&b).err(), Some(BookFormatError::Length));
    b[5] = 200;
    assert_eq!(OpeningBook::from_bytes(&b).err(), Some(BookFormatError::Length));
}

#[test]
fn out_of_range_score_is_loaded() {
    let mut b = tiny_book(0);
    b[10] = 100;
    let book = OpeningBook::from_bytes(&b).ok().unwrap();
    assert_eq!(book.get(&Position::new()), Some(81));
    // the byte is unsigned
    b[10] = 200;
    let book = OpeningBook::from_bytes(&b).ok().unwrap();
    assert_eq!(book.get(&Position::new()), Some(181));
}

#[test]
fn book_lookup() {
    let book = OpeningBook::from_bytes(&tiny_book(0)).ok().unwrap();
    assert_eq!(book.get(&Position::new()), Some(5));
    // deeper than the book
    let mut p = Position::new();
    p.play(0);
    assert_eq!(book.get(&p), None);
    // within depth but absent: its slot holds another key
    let book = OpeningBook::from_bytes(&tiny_book(1)).ok().unwrap();
    assert_eq!(book.get(&p), None);
}

#[test]
fn empty_book_holds_nothing() {
    let book = OpeningBook::empty();
    assert_eq!(book.get(&Position::new()), None);
}

#[test]
fn solver_uses_book() {
    let book = OpeningBook::from_bytes(&tiny_book(0)).ok().unwrap();
    let mut solver = Solver::with_book(book);
    assert_eq!(solver.solve(&Position::new(), false), 5);
}
