use scrabble::error::Error;
use scrabble::letter::{parse_letter, parse_word, word_to_string, FromChar, Letter, ToChar};

#[test]
fn codec_round_trips_every_tile() {
    let tiles = " ABCDEFGHIJKLMNOPQRSTUVWXYZ";
    for (code, c) in tiles.chars().enumerate() {
        assert_eq!(Letter::from_char(c), code as u8);
        assert_eq!((code as u8).to_char(), c);
        assert_eq!(Letter::from_char(c).to_char(), c);
    }
}

#[test]
fn blank_is_code_zero() {
    assert_eq!(Letter::from_char(' '), 0);
    assert_eq!(0u8.to_char(), ' ');
}

#[test]
fn letters_are_codes_one_to_twenty_six() {
    assert_eq!(Letter::from_char('A'), 1);
    assert_eq!(Letter::from_char('K'), 11);
    assert_eq!(Letter::from_char('Z'), 26);
    assert_eq!(1u8.to_char(), 'A');
    assert_eq!(26u8.to_char(), 'Z');
}

#[test]
fn parse_letter_accepts_tiles_only() {
    assert_eq!(parse_letter('Q'), Ok(17));
    assert_eq!(parse_letter(' '), Ok(0));
    assert_eq!(parse_letter('q'), Err(Error::InvalidCharacter('q')));
    assert_eq!(parse_letter('1'), Err(Error::InvalidCharacter('1')));
    assert_eq!(parse_letter('@'), Err(Error::InvalidCharacter('@')));
    assert_eq!(parse_letter('['), Err(Error::InvalidCharacter('[')));
    assert_eq!(parse_letter('É'), Err(Error::InvalidCharacter('É')));
}

#[test]
fn parse_word_gives_codes_in_order() {
    assert_eq!(parse_word("CAT"), Ok(vec![3, 1, 20]));
    assert_eq!(parse_word(""), Ok(vec![]));
    assert_eq!(parse_word("A Z"), Ok(vec![1, 0, 26]));
}

#[test]
fn parse_word_names_first_invalid_character() {
    assert_eq!(parse_word("AB?C!"), Err(Error::InvalidCharacter('?')));
    assert_eq!(parse_word("cat"), Err(Error::InvalidCharacter('c')));
}

#[test]
fn word_to_string_spells_the_codes() {
    assert_eq!(word_to_string(&vec![3, 1, 20]), "CAT");
    assert_eq!(word_to_string(&vec![]), "");
    assert_eq!(word_to_string(&vec![26, 0, 1]), "Z A");
}

#[test]
fn words_round_trip_through_strings() {
    let word: Vec<Letter> = (0..=26).collect();
    let text = word_to_string(&word);
    assert_eq!(text, " ABCDEFGHIJKLMNOPQRSTUVWXYZ");
    assert_eq!(parse_word(&text), Ok(word));
}
