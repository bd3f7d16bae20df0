use scrabble::board::Board;
use scrabble::score::{
    calculate_score, letters_value, score_letters, square_type, tile_value, word_value, SquareType,
    BINGO_BONUS, LETTERS_VALUES, PREMIUM_SQUARES,
};

const NO_VALUES: [[u16; 15]; 15] = [[0; 15]; 15];

#[test]
fn letter_values_are_the_french_set() {
    let expected = [
        ('A', 1), ('B', 3), ('C', 3), ('D', 2), ('E', 1), ('F', 4), ('G', 2), ('H', 4), ('I', 1),
        ('J', 8), ('K', 10), ('L', 1), ('M', 2), ('N', 1), ('O', 1), ('P', 3), ('Q', 8), ('R', 1),
        ('S', 1), ('T', 1), ('U', 1), ('V', 4), ('W', 10), ('X', 10), ('Y', 10), ('Z', 10),
    ];
    assert_eq!(LETTERS_VALUES[0], 0);
    assert_eq!(tile_value(0), 0);
    for (c, value) in expected {
        let code = c as u8 - 0x40;
        assert_eq!(LETTERS_VALUES[code as usize], value);
        assert_eq!(tile_value(code), value);
    }
}

#[test]
fn word_value_sums_the_tiles() {
    assert_eq!(word_value(""), 0);
    assert_eq!(word_value("CAT"), 5);
    assert_eq!(word_value("KIWI"), 22);
    assert_eq!(word_value("A B"), 4);
    assert_eq!(word_value("ZZZZZZZZZZZZZZZ"), 150);
    assert_eq!(letters_value(&vec![3, 1, 20]), 5);
}

#[test]
fn premium_table_is_the_standard_layout() {
    assert_eq!(PREMIUM_SQUARES[0][0], 4);
    assert_eq!(PREMIUM_SQUARES[0][7], 4);
    assert_eq!(PREMIUM_SQUARES[7][0], 4);
    assert_eq!(PREMIUM_SQUARES[14][14], 4);
    assert_eq!(PREMIUM_SQUARES[7][7], 3);
    assert_eq!(PREMIUM_SQUARES[1][1], 3);
    assert_eq!(PREMIUM_SQUARES[4][4], 3);
    assert_eq!(PREMIUM_SQUARES[1][5], 2);
    assert_eq!(PREMIUM_SQUARES[5][5], 2);
    assert_eq!(PREMIUM_SQUARES[0][3], 1);
    assert_eq!(PREMIUM_SQUARES[7][3], 1);
    assert_eq!(PREMIUM_SQUARES[7][11], 1);
    assert_eq!(PREMIUM_SQUARES[6][6], 1);
    assert_eq!(PREMIUM_SQUARES[0][1], 0);
    let mut counts = [0usize; 5];
    for r in 0..15 {
        for c in 0..15 {
            counts[PREMIUM_SQUARES[r][c] as usize] += 1;
        }
    }
    assert_eq!(counts, [164, 24, 12, 17, 8]);
}

#[test]
fn premium_table_is_symmetric() {
    for r in 0..15 {
        for c in 0..15 {
            let p = PREMIUM_SQUARES[r][c];
            assert_eq!(PREMIUM_SQUARES[c][r], p);
            assert_eq!(PREMIUM_SQUARES[14 - r][c], p);
            assert_eq!(PREMIUM_SQUARES[r][14 - c], p);
        }
    }
}

#[test]
fn square_types_follow_the_codes() {
    assert_eq!(SquareType::from_u8(0), SquareType::Normal);
    assert_eq!(SquareType::from_u8(1), SquareType::DoubleLetter);
    assert_eq!(SquareType::from_u8(2), SquareType::TripleLetter);
    assert_eq!(SquareType::from_u8(3), SquareType::DoubleWord);
    assert_eq!(SquareType::from_u8(4), SquareType::TripleWord);
    assert_eq!(square_type(7, 7), SquareType::DoubleWord);
    assert_eq!(square_type(0, 14), SquareType::TripleWord);
    assert_eq!(square_type(5, 9), SquareType::TripleLetter);
    assert_eq!(square_type(3, 0), SquareType::DoubleLetter);
    assert_eq!(square_type(1, 0), SquareType::Normal);
}

#[test]
fn opening_word_is_doubled_on_the_centre() {
    let board = Board::new();
    assert_eq!(calculate_score(&board, &NO_VALUES, "CAT", 7, 7, false), 10);
    assert_eq!(calculate_score(&board, &NO_VALUES, "CAT", 7, 5, false), 10);
    assert_eq!(calculate_score(&board, &NO_VALUES, "AT", 7, 6, false), 4);
}

#[test]
fn letter_premiums_multiply_one_tile() {
    let board = Board::new();
    assert_eq!(calculate_score(&board, &NO_VALUES, "CAT", 7, 3, false), 8);
    assert_eq!(calculate_score(&board, &NO_VALUES, "CAT", 5, 5, false), 11);
    assert_eq!(calculate_score(&board, &NO_VALUES, "TAC", 5, 3, false), 11);
}

#[test]
fn word_premiums_multiply_each_other() {
    let board = Board::new();
    assert_eq!(calculate_score(&board, &NO_VALUES, "AAAAAAAA", 0, 0, false), 81);
    assert_eq!(calculate_score(&board, &NO_VALUES, "AAAAAAAAAAAAAAA", 0, 0, false), 459);
    assert_eq!(calculate_score(&board, &NO_VALUES, "ZZZZZZZZZZZZZZZ", 0, 0, true), 4640);
}

#[test]
fn bingo_adds_fifty() {
    let board = Board::new();
    assert_eq!(BINGO_BONUS, 50);
    assert_eq!(calculate_score(&board, &NO_VALUES, "AAAAAAA", 0, 0, false), 24);
    assert_eq!(calculate_score(&board, &NO_VALUES, "AAAAAAA", 0, 0, true), 74);
    assert_eq!(calculate_score(&board, &NO_VALUES, "", 0, 0, true), 50);
}

#[test]
fn premiums_under_old_letters_do_not_count() {
    let mut board = Board::new();
    board.play("A", 7, 7, true).unwrap();
    assert_eq!(calculate_score(&board, &NO_VALUES, "CAT", 7, 6, false), 5);
    board.play("C", 7, 3, true).unwrap();
    assert_eq!(calculate_score(&board, &NO_VALUES, "CAB", 7, 3, false), 4 + 3);
}

#[test]
fn cross_words_add_their_letters_and_the_new_tile() {
    let board = Board::new();
    let mut values = NO_VALUES;
    values[8][8] = 4;
    assert_eq!(calculate_score(&board, &values, "T", 8, 8, false), 2 + (4 + 2));
    values[1][1] = 5;
    assert_eq!(calculate_score(&board, &values, "B", 1, 1, false), 3 * 2 + (5 + 3) * 2);
    values[0][0] = 7;
    assert_eq!(calculate_score(&board, &values, "K", 0, 0, false), 10 * 3 + (7 + 10) * 3);
    values[3][1] = 2;
    values[3][2] = 9;
    assert_eq!(
        calculate_score(&board, &values, "CAT", 3, 0, false),
        (6 + 1 + 1) + (2 + 1) + (9 + 1)
    );
}

#[test]
fn blank_tiles_score_nothing() {
    let board = Board::new();
    assert_eq!(calculate_score(&board, &NO_VALUES, "C T", 7, 7, false), 8);
    assert_eq!(calculate_score(&board, &NO_VALUES, "   ", 0, 0, false), 0);
}

#[test]
fn score_letters_agrees_with_calculate_score() {
    let mut board = Board::new();
    board.play("TIRANT", 7, 7, true).unwrap();
    let mut values = NO_VALUES;
    values[8][7] = 1;
    values[8][8] = 1;
    let by_text = calculate_score(&board, &values, "CABANES", 8, 4, true);
    let by_codes = score_letters(&board, &values, &vec![3, 1, 2, 1, 14, 5, 19], 8, 4, true);
    assert_eq!(by_text, by_codes);
    assert_eq!(by_text, (3 + 1 + 3 * 2 + 1 + 1 * 2 + 1 + 1) + (1 + 1) + (1 + 2) + 50);
}
