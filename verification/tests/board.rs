use scrabble::board::Board;
use scrabble::error::Error;

fn assert_transposed(board: &Board) {
    for r in 0..15 {
        for c in 0..15 {
            assert_eq!(board.secondary[c][r], board.primary[r][c]);
        }
    }
}

#[test]
fn new_board_is_empty_and_reads_across() {
    let board = Board::new();
    assert!(board.across);
    assert!(board.is_empty());
    assert_eq!(board.primary, [[0u8; 15]; 15]);
    assert_eq!(board.secondary, [[0u8; 15]; 15]);
}

#[test]
fn play_across_fills_a_row() {
    let mut board = Board::new();
    assert_eq!(board.play("CAT", 7, 7, true), Ok(()));
    assert_eq!(board.get(7, 7), 3);
    assert_eq!(board.get(7, 8), 1);
    assert_eq!(board.get(7, 9), 20);
    assert_eq!(board.get(7, 10), 0);
    assert_eq!(board.get(8, 7), 0);
    assert_eq!(board.secondary[7][7], 3);
    assert_eq!(board.secondary[8][7], 1);
    assert_eq!(board.secondary[9][7], 20);
    assert!(!board.is_empty());
    assert!(board.across);
    assert_transposed(&board);
}

#[test]
fn play_down_fills_a_column() {
    let mut board = Board::new();
    assert_eq!(board.play("DOG", 3, 5, false), Ok(()));
    assert_eq!(board.get(3, 5), 4);
    assert_eq!(board.get(4, 5), 15);
    assert_eq!(board.get(5, 5), 7);
    assert_eq!(board.get(3, 6), 0);
    assert_eq!(board.secondary[5][3], 4);
    assert_eq!(board.secondary[5][4], 15);
    assert_eq!(board.secondary[5][5], 7);
    assert_transposed(&board);
}

#[test]
fn grids_stay_transposed_through_plays_and_rotations() {
    let mut board = Board::new();
    board.play("TIRANT", 7, 7, true).unwrap();
    assert_transposed(&board);
    board.play("CABANES", 8, 4, true).unwrap();
    assert_transposed(&board);
    board.rotate();
    assert_transposed(&board);
    board.play("ZEN", 0, 12, false).unwrap();
    assert_transposed(&board);
    board.rotate();
    assert_transposed(&board);
}

#[test]
fn rotate_swaps_grids_and_flips_direction() {
    let mut board = Board::new();
    board.play("CAT", 2, 4, true).unwrap();
    let primary = board.primary;
    let secondary = board.secondary;
    board.rotate();
    assert!(!board.across);
    assert_eq!(board.primary, secondary);
    assert_eq!(board.secondary, primary);
    assert_eq!(board.get(4, 2), 3);
    assert_eq!(board.get(5, 2), 1);
    assert_eq!(board.get(6, 2), 20);
}

#[test]
fn balanced_rotations_give_the_board_back() {
    let mut board = Board::new();
    board.play("KAPPA", 7, 5, true).unwrap();
    board.play("KIF", 7, 5, false).unwrap();
    let primary = board.primary;
    let secondary = board.secondary;
    for turns in 1..=6 {
        board.rotate();
        if turns % 2 == 0 {
            assert!(board.across);
            assert_eq!(board.primary, primary);
            assert_eq!(board.secondary, secondary);
        } else {
            assert!(!board.across);
        }
    }
}

#[test]
fn play_then_two_rotations_leave_both_grids() {
    let mut board = Board::new();
    board.play("HI", 7, 7, true).unwrap();
    board.play("HIT", 7, 7, false).unwrap();
    let primary = board.primary;
    let secondary = board.secondary;
    board.rotate();
    board.rotate();
    assert_eq!(board.primary, primary);
    assert_eq!(board.secondary, secondary);
}

#[test]
fn play_off_the_board_is_refused_whole() {
    let mut board = Board::new();
    board.play("CAT", 7, 7, true).unwrap();
    let primary = board.primary;
    let secondary = board.secondary;
    assert_eq!(board.play("CAT", 7, 13, true), Err(Error::OutOfRange));
    assert_eq!(board.play("CAT", 15, 0, true), Err(Error::OutOfRange));
    assert_eq!(board.play("CAT", 13, 7, false), Err(Error::OutOfRange));
    assert_eq!(board.play("CAT", 0, 15, false), Err(Error::OutOfRange));
    assert_eq!(board.play("ABCDEFGHIJKLMNOP", 0, 0, true), Err(Error::OutOfRange));
    assert_eq!(board.play("A", usize::MAX, usize::MAX, true), Err(Error::OutOfRange));
    assert_eq!(board.primary, primary);
    assert_eq!(board.secondary, secondary);
}

#[test]
fn play_reaches_the_edges() {
    let mut board = Board::new();
    assert_eq!(board.play("CAT", 0, 12, true), Ok(()));
    assert_eq!(board.play("CAT", 14, 0, true), Ok(()));
    assert_eq!(board.play("TOP", 12, 14, false), Ok(()));
    assert_eq!(board.play("ABCDEFGHIJKLMNO", 5, 0, true), Ok(()));
    assert_eq!(board.get(0, 14), 20);
    assert_eq!(board.get(14, 0), 3);
    assert_eq!(board.get(14, 14), 16);
    assert_eq!(board.get(5, 14), 15);
    assert_transposed(&board);
}

#[test]
fn play_with_an_invalid_character_is_refused_whole() {
    let mut board = Board::new();
    assert_eq!(board.play("CaT", 7, 7, true), Err(Error::InvalidCharacter('a')));
    assert_eq!(board.play("C4T!", 7, 7, false), Err(Error::InvalidCharacter('4')));
    assert_eq!(board.play("cat", 99, 99, true), Err(Error::InvalidCharacter('c')));
    assert!(board.is_empty());
}

#[test]
fn empty_word_changes_nothing() {
    let mut board = Board::new();
    board.play("CAT", 7, 7, true).unwrap();
    let primary = board.primary;
    assert_eq!(board.play("", 20, 20, true), Ok(()));
    assert_eq!(board.play("", 3, 3, false), Ok(()));
    assert_eq!(board.primary, primary);
}

#[test]
fn play_keeps_the_direction_of_a_rotated_board() {
    let mut board = Board::new();
    board.rotate();
    board.play("CAT", 1, 2, true).unwrap();
    assert!(!board.across);
    assert_eq!(board.primary[1][2], 3);
    assert_eq!(board.primary[1][4], 20);
    assert_eq!(board.secondary[4][1], 20);
}
