use scrabble::board::Board;
use scrabble::legal_moves::{
    add_letter_to_rack, calculate_anchors, calculate_cross_check_sets_and_value_set,
    calculate_legal_moves, calculate_letter_set_and_score, count_fresh, extend_right, left_part,
    remove_letter_from_rack, LegalMove,
};
use scrabble::letter::{FromChar, Letter};
use scrabble::lexicon::Lexicon;
use scrabble::orchestrator::generate;
use scrabble::ranking::rank_moves;
use std::collections::{BTreeSet, HashMap, HashSet};

const WORDS: [&str; 40] = [
    "CAT", "AT", "ACT", "TA", "CATS", "AB", "BA", "BAR", "BRA", "ARB", "AR", "RA", "TIRANT",
    "CABANES", "IN", "RE", "AS", "AI", "DU", "AIDA", "DIA", "UT", "NU", "ES", "SA", "ET", "TE",
    "NE", "EN", "AN", "NA", "DA", "ADA", "AIE", "SI", "IS", "US", "SU", "ANA", "RAI",
];

const VALUES: [u16; 27] = [
    0, 1, 3, 3, 2, 1, 4, 2, 4, 1, 8, 10, 1, 2, 1, 1, 3, 8, 1, 1, 1, 1, 4, 10, 10, 10, 10,
];

const PREMIUMS: [&str; 15] = [
    "4..1...4...1..4",
    ".3...2...2...3.",
    "..3...1.1...3..",
    "1..3...1...3..1",
    "....3.....3....",
    ".2...2...2...2.",
    "..1...1.1...1..",
    "4..1...3...1..4",
    "..1...1.1...1..",
    ".2...2...2...2.",
    "....3.....3....",
    "1..3...1...3..1",
    "..3...1.1...3..",
    ".3...2...2...3.",
    "4..1...4...1..4",
];

type Placement = (String, usize, usize, bool);

fn lexicon_of(words: &[&str]) -> Lexicon {
    let words: Vec<String> = words.iter().map(|w| w.to_string()).collect();
    Lexicon::from_words(&words).unwrap()
}

fn rack_of(tiles: &str) -> HashMap<Letter, u8> {
    let mut rack = HashMap::new();
    for c in tiles.chars() {
        add_letter_to_rack(&mut rack, Letter::from_char(c));
    }
    rack
}

fn board_of(plays: &[(&str, usize, usize, bool)]) -> Board {
    let mut board = Board::new();
    for (word, row, col, across) in plays {
        board.play(word, *row, *col, *across).unwrap();
    }
    board
}

fn summary(moves: &[LegalMove]) -> Vec<(String, usize, usize, bool, u16)> {
    moves
        .iter()
        .map(|m| (m.letters.clone(), m.row_index, m.column_index, m.across, m.score))
        .collect()
}

fn placements(moves: &[LegalMove]) -> Vec<Placement> {
    moves.iter().map(|m| (m.letters.clone(), m.row_index, m.column_index, m.across)).collect()
}

fn square(m: &Placement, i: usize) -> (usize, usize) {
    if m.3 {
        (m.1, m.2 + i)
    } else {
        (m.1 + i, m.2)
    }
}

fn premium_at(r: usize, c: usize) -> u8 {
    match PREMIUMS[r].as_bytes()[c] {
        b'.' => 0,
        digit => digit - b'0',
    }
}

fn lines_of(grid: &[[u8; 15]; 15]) -> Vec<Vec<u8>> {
    let mut lines = Vec::new();
    for r in 0..15 {
        lines.push(grid[r].to_vec());
    }
    for c in 0..15 {
        lines.push((0..15).map(|r| grid[r][c]).collect());
    }
    lines
}

fn every_run_is_a_word(grid: &[[u8; 15]; 15], words: &HashSet<String>) -> bool {
    for line in lines_of(grid) {
        let text: String = line.iter().map(|l| if *l == 0 { ' ' } else { (l + 0x40) as char }).collect();
        for run in text.split(' ') {
            if run.len() >= 2 && !words.contains(run) {
                return false;
            }
        }
    }
    true
}

fn run_through(grid: &[[u8; 15]; 15], r: usize, c: usize, down: bool) -> Vec<(usize, usize)> {
    let step = |p: (usize, usize), back: bool| -> Option<(usize, usize)> {
        let (r, c) = p;
        let q = match (down, back) {
            (true, true) => (r.checked_sub(1)?, c),
            (true, false) => (r + 1, c),
            (false, true) => (r, c.checked_sub(1)?),
            (false, false) => (r, c + 1),
        };
        if q.0 < 15 && q.1 < 15 && grid[q.0][q.1] != 0 {
            Some(q)
        } else {
            None
        }
    };
    let mut first = (r, c);
    while let Some(p) = step(first, true) {
        first = p;
    }
    let mut run = vec![first];
    while let Some(p) = step(*run.last().unwrap(), false) {
        run.push(p);
    }
    run
}

fn score_by_rules(before: &[[u8; 15]; 15], m: &Placement) -> u16 {
    let mut after = *before;
    let letters: Vec<u8> = m.0.bytes().map(|b| b - 0x40).collect();
    for (i, l) in letters.iter().enumerate() {
        let (r, c) = square(m, i);
        after[r][c] = *l;
    }
    let tile = |p: (usize, usize)| -> (u16, u16) {
        let value = VALUES[after[p.0][p.1] as usize];
        if before[p.0][p.1] != 0 {
            return (value, 1);
        }
        match premium_at(p.0, p.1) {
            1 => (value * 2, 1),
            2 => (value * 3, 1),
            3 => (value, 2),
            4 => (value, 3),
            _ => (value, 1),
        }
    };
    let word_score = |run: &[(usize, usize)]| -> u16 {
        let mut sum = 0;
        let mut factor = 1;
        for p in run {
            let (points, times) = tile(*p);
            sum += points;
            factor *= times;
        }
        sum * factor
    };
    let main: Vec<(usize, usize)> = (0..letters.len()).map(|i| square(m, i)).collect();
    let mut total = word_score(&main);
    let mut laid = 0;
    for p in &main {
        if before[p.0][p.1] == 0 {
            laid += 1;
            let cross = run_through(&after, p.0, p.1, m.3);
            if cross.len() >= 2 {
                total += word_score(&cross);
            }
        }
    }
    if laid == 7 {
        total += 50;
    }
    total
}

fn all_placements(grid: &[[u8; 15]; 15], words: &[&str], rack: &str) -> BTreeSet<Placement> {
    let set: HashSet<String> = words.iter().map(|w| w.to_string()).collect();
    let empty = grid.iter().all(|row| row.iter().all(|l| *l == 0));
    let mut found = BTreeSet::new();
    for word in words {
        let letters: Vec<u8> = word.bytes().map(|b| b - 0x40).collect();
        for across in [true, false] {
            for r in 0..15 {
                for c in 0..15 {
                    let m: Placement = (word.to_string(), r, c, across);
                    let last = square(&m, letters.len() - 1);
                    if last.0 >= 15 || last.1 >= 15 {
                        continue;
                    }
                    let mut after = *grid;
                    let mut available: Vec<char> = rack.chars().collect();
                    let mut laid = 0;
                    let mut fits = true;
                    let mut linked = false;
                    for (i, l) in letters.iter().enumerate() {
                        let (y, x) = square(&m, i);
                        if grid[y][x] == 0 {
                            laid += 1;
                            match available.iter().position(|t| *t as u8 - 0x40 == *l) {
                                Some(at) => {
                                    available.remove(at);
                                },
                                None => fits = false,
                            }
                            let near = [(y.wrapping_sub(1), x), (y + 1, x), (y, x.wrapping_sub(1)), (y, x + 1)];
                            if near.iter().any(|(a, b)| *a < 15 && *b < 15 && grid[*a][*b] != 0) {
                                linked = true;
                            }
                            if empty && y == 7 && x == 7 {
                                linked = true;
                            }
                            after[y][x] = *l;
                        } else if grid[y][x] != *l {
                            fits = false;
                        }
                    }
                    if !fits || laid == 0 || !linked {
                        continue;
                    }
                    let first = square(&m, 0);
                    if run_through(&after, first.0, first.1, !across).len() != letters.len() {
                        continue;
                    }
                    let crossings_hold = (0..letters.len()).all(|i| {
                        let (y, x) = square(&m, i);
                        if grid[y][x] != 0 {
                            return true;
                        }
                        let cross = run_through(&after, y, x, across);
                        let text: String = cross.iter().map(|p| (after[p.0][p.1] + 0x40) as char).collect();
                        cross.len() < 2 || set.contains(&text)
                    });
                    if crossings_hold {
                        found.insert(m);
                    }
                }
            }
        }
    }
    found
}

fn check_against_rules(plays: &[(&str, usize, usize, bool)], rack: &str) -> usize {
    let lexicon = lexicon_of(&WORDS);
    let words: HashSet<String> = WORDS.iter().map(|w| w.to_string()).collect();
    let mut board = board_of(plays);
    let before = board.primary;
    let mut tiles = rack_of(rack);
    let moves = generate(&lexicon, &mut board, &mut tiles);
    assert_eq!(tiles, rack_of(rack));
    assert_eq!(board.primary, before);
    assert!(board.across);
    let found: BTreeSet<Placement> = placements(&moves).into_iter().collect();
    assert_eq!(found.len(), moves.len());
    let wanted = all_placements(&before, &WORDS, rack);
    let missed: Vec<&Placement> = wanted.difference(&found).collect();
    let extra: Vec<&Placement> = found.difference(&wanted).collect();
    assert!(missed.is_empty() && extra.is_empty(), "missed {:?}, extra {:?}", missed, extra);
    for m in &moves {
        let p = (m.letters.clone(), m.row_index, m.column_index, m.across);
        assert_eq!(m.score, score_by_rules(&before, &p), "{:?}", p);
        let mut copy = board_of(plays);
        let laid = count_laid(&before, &p);
        assert!(laid >= 1);
        assert_eq!(copy.play(&m.letters, m.row_index, m.column_index, m.across), Ok(()));
        assert!(every_run_is_a_word(&copy.primary, &words), "{:?}", p);
    }
    for pair in moves.windows(2) {
        assert!(pair[0].score >= pair[1].score);
    }
    moves.len()
}

fn count_laid(before: &[[u8; 15]; 15], m: &Placement) -> usize {
    (0..m.0.len()).filter(|i| {
        let (r, c) = square(m, *i);
        before[r][c] == 0
    }).count()
}

#[test]
fn smoke_moves_on_empty_board() {
    let lexicon = lexicon_of(&["CAT", "AT", "ACT", "TA", "CATS"]);
    let mut board = Board::new();
    let mut rack = rack_of("CAT");
    let moves = generate(&lexicon, &mut board, &mut rack);
    assert_eq!(moves.len(), 20);
    assert_eq!(rack, rack_of("CAT"));
    let across = calculate_legal_moves(&lexicon, &board, &mut rack);
    assert_eq!(across.len() * 2, moves.len());
}

#[test]
fn opening_moves_in_the_order_found() {
    let lexicon = lexicon_of(&["CAT", "AT", "ACT", "TA", "CATS"]);
    let board = Board::new();
    let mut rack = rack_of("CAT");
    let moves = calculate_legal_moves(&lexicon, &board, &mut rack);
    let expected: Vec<(String, usize, usize, bool, u16)> = [
        ("ACT", 7, 7, 10),
        ("AT", 7, 7, 4),
        ("CAT", 7, 7, 10),
        ("TA", 7, 7, 4),
        ("ACT", 7, 6, 10),
        ("AT", 7, 6, 4),
        ("ACT", 7, 5, 10),
        ("CAT", 7, 6, 10),
        ("CAT", 7, 5, 10),
        ("TA", 7, 6, 4),
    ]
    .iter()
    .map(|(w, r, c, s)| (w.to_string(), *r, *c, true, *s))
    .collect();
    assert_eq!(summary(&moves), expected);
}

#[test]
fn generate_ranks_by_score_and_keeps_the_order_of_ties() {
    let lexicon = lexicon_of(&["CAT", "AT", "ACT", "TA", "CATS"]);
    let mut board = Board::new();
    let mut rack = rack_of("CAT");
    let moves = generate(&lexicon, &mut board, &mut rack);
    let expected: Vec<Placement> = [
        ("ACT", 7, 7, true), ("CAT", 7, 7, true), ("ACT", 7, 6, true), ("ACT", 7, 5, true),
        ("CAT", 7, 6, true), ("CAT", 7, 5, true), ("ACT", 7, 7, false), ("CAT", 7, 7, false),
        ("ACT", 6, 7, false), ("ACT", 5, 7, false), ("CAT", 6, 7, false), ("CAT", 5, 7, false),
        ("AT", 7, 7, true), ("TA", 7, 7, true), ("AT", 7, 6, true), ("TA", 7, 6, true),
        ("AT", 7, 7, false), ("TA", 7, 7, false), ("AT", 6, 7, false), ("TA", 6, 7, false),
    ]
    .iter()
    .map(|(word, row, col, across)| (word.to_string(), *row, *col, *across))
    .collect();
    assert_eq!(placements(&moves), expected);
    let scores: Vec<u16> = moves.iter().map(|m| m.score).collect();
    assert_eq!(scores, [vec![10; 12], vec![4; 8]].concat());
}

#[test]
fn rack_comes_back_as_it_was() {
    let lexicon = lexicon_of(&WORDS);
    let board = board_of(&[("TIRANT", 7, 7, true)]);
    let mut rack = rack_of("DIAAIAU");
    let before = rack.clone();
    let moves = calculate_legal_moves(&lexicon, &board, &mut rack);
    assert!(!moves.is_empty());
    assert_eq!(rack, before);
    assert_eq!(rack.get(&1), Some(&3));
    assert_eq!(rack.get(&9), Some(&2));
    assert_eq!(rack.len(), 4);
}

#[test]
fn opening_moves_cover_the_centre() {
    let lexicon = lexicon_of(&WORDS);
    let mut board = Board::new();
    let mut rack = rack_of("CATSBRA");
    let moves = generate(&lexicon, &mut board, &mut rack);
    assert!(!moves.is_empty());
    for m in &moves {
        let len = m.letters.len();
        if m.across {
            assert_eq!(m.row_index, 7);
            assert!(m.column_index <= 7 && 7 < m.column_index + len);
        } else {
            assert_eq!(m.column_index, 7);
            assert!(m.row_index <= 7 && 7 < m.row_index + len);
        }
    }
}

#[test]
fn opening_moves_on_a_rotated_empty_board_cover_the_centre() {
    let lexicon = lexicon_of(&WORDS);
    let mut board = Board::new();
    board.rotate();
    let mut rack = rack_of("CAT");
    let moves = calculate_legal_moves(&lexicon, &board, &mut rack);
    assert!(!moves.is_empty());
    for m in &moves {
        assert!(!m.across);
        assert_eq!(m.column_index, 7);
        assert!(m.row_index <= 7 && 7 < m.row_index + m.letters.len());
    }
}

#[test]
fn moves_match_the_rules_on_an_empty_board() {
    assert_eq!(check_against_rules(&[], "CATSBRA"), 70);
}

#[test]
fn moves_match_the_rules_around_one_letter() {
    check_against_rules(&[("A", 7, 7, true)], "BR");
}

#[test]
fn moves_match_the_rules_after_two_plays() {
    let count = check_against_rules(&[("TIRANT", 7, 7, true), ("CABANES", 8, 4, true)], "DIAAIAU");
    assert!(count > 0);
}

#[test]
fn moves_match_the_rules_at_the_edges() {
    check_against_rules(
        &[("CAT", 0, 0, true), ("CATS", 0, 0, false), ("BRA", 14, 12, true), ("BRA", 12, 14, false)],
        "ASTRBAE",
    );
    check_against_rules(&[("TIRANT", 0, 9, true), ("TIRANT", 9, 0, false)], "ASTENRI");
    check_against_rules(&[("CABANES", 14, 0, true), ("AS", 13, 6, false)], "ASTENRI");
}

#[test]
fn moves_match_the_rules_with_repeated_tiles() {
    check_against_rules(&[("ADA", 7, 6, true)], "AANN");
    check_against_rules(&[("ADA", 7, 6, true)], "A");
}

#[test]
fn two_plays_then_a_best_move() {
    let lexicon = lexicon_of(&WORDS);
    let mut board = board_of(&[("TIRANT", 7, 7, true), ("CABANES", 8, 4, true)]);
    let mut rack = rack_of("DIAAIAU");
    let moves = generate(&lexicon, &mut board, &mut rack);
    assert!(!moves.is_empty());
    let again = generate(&lexicon, &mut board, &mut rack);
    assert_eq!(summary(&moves), summary(&again));
    let best = &moves[0];
    assert!(moves.iter().all(|m| m.score <= best.score));
}

#[test]
fn seven_equal_tiles_find_nothing() {
    let lexicon = lexicon_of(&WORDS);
    let mut board = Board::new();
    let mut rack = rack_of("AAAAAAA");
    assert!(generate(&lexicon, &mut board, &mut rack).is_empty());
    assert_eq!(rack.get(&1), Some(&7));
}

#[test]
fn empty_rack_finds_nothing() {
    let lexicon = lexicon_of(&WORDS);
    let mut rack = HashMap::new();
    let mut board = Board::new();
    assert!(generate(&lexicon, &mut board, &mut rack).is_empty());
    let mut board = board_of(&[("TIRANT", 7, 7, true)]);
    assert!(generate(&lexicon, &mut board, &mut rack).is_empty());
    assert!(rack.is_empty());
}

#[test]
fn tiles_outside_the_lexicon_find_nothing() {
    let lexicon = lexicon_of(&WORDS);
    let mut board = Board::new();
    let mut rack = rack_of("QWXZKJY");
    assert!(generate(&lexicon, &mut board, &mut rack).is_empty());
}

#[test]
fn blank_on_the_rack_is_never_laid() {
    let lexicon = lexicon_of(&WORDS);
    let mut board = Board::new();
    let mut rack = rack_of(" ");
    assert!(generate(&lexicon, &mut board, &mut rack).is_empty());
    let mut rack = rack_of("A ");
    let mut other = rack_of("A");
    let with_blank = generate(&lexicon, &mut board, &mut rack);
    let without = generate(&lexicon, &mut board, &mut other);
    assert_eq!(summary(&with_blank), summary(&without));
}

#[test]
fn words_around_a_single_letter() {
    let lexicon = lexicon_of(&["AB", "BA", "BAR", "BRA", "ARB", "AR", "RA", "RAB", "BARB", "A", "CAB"]);
    let mut board = board_of(&[("A", 7, 7, true)]);
    let mut rack = rack_of("BR");
    let moves = generate(&lexicon, &mut board, &mut rack);
    let found: BTreeSet<Placement> = placements(&moves).into_iter().collect();
    let mut expected = BTreeSet::new();
    for (word, at) in [("AB", 0), ("BA", 1), ("BAR", 1), ("BRA", 2), ("ARB", 0), ("AR", 0), ("RA", 1), ("RAB", 1)] {
        expected.insert((word.to_string(), 7, 7 - at, true));
        expected.insert((word.to_string(), 7 - at, 7, false));
    }
    assert_eq!(found, expected);
    assert_eq!(moves.len(), 16);
    for m in &moves {
        let expected = m.letters.chars().map(|c| VALUES[c as usize - 0x40]).sum::<u16>();
        assert_eq!(m.score, expected);
    }
}

#[test]
fn generation_order_does_not_matter() {
    let lexicon = lexicon_of(&WORDS);
    let mut board = board_of(&[("TIRANT", 7, 7, true), ("CABANES", 8, 4, true)]);
    let mut rack = rack_of("DIAAIAU");
    let mut first = calculate_legal_moves(&lexicon, &board, &mut rack);
    board.rotate();
    first.append(&mut calculate_legal_moves(&lexicon, &board, &mut rack));
    board.rotate();

    board.rotate();
    let mut second = calculate_legal_moves(&lexicon, &board, &mut rack);
    board.rotate();
    second.append(&mut calculate_legal_moves(&lexicon, &board, &mut rack));

    let mut a = summary(&first);
    let mut b = summary(&second);
    a.sort();
    b.sort();
    assert_eq!(a, b);
    assert!(board.across);
}

#[test]
fn bingo_needs_seven_tiles() {
    let lexicon = lexicon_of(&["CABANES", "CAB"]);
    let mut board = Board::new();
    let mut rack = rack_of("CABANES");
    let moves = generate(&lexicon, &mut board, &mut rack);
    let best = &moves[0];
    assert_eq!(best.letters, "CABANES");
    assert!(best.score >= 50 + 2 * 11);
    for m in moves.iter().filter(|m| m.letters == "CAB") {
        assert!(m.score < 50);
    }
    let mut rack = rack_of("CAB");
    let moves = generate(&lexicon, &mut board, &mut rack);
    assert!(!moves.is_empty());
    assert!(moves.iter().all(|m| m.letters == "CAB" && m.score == 14));
}

#[test]
fn bingo_through_a_letter_on_the_board_needs_seven_new_tiles() {
    let lexicon = lexicon_of(&["CABANES"]);
    let mut board = board_of(&[("C", 7, 7, true)]);
    let mut rack = rack_of("ABANES");
    let moves = generate(&lexicon, &mut board, &mut rack);
    assert_eq!(moves.len(), 2);
    for m in &moves {
        assert_eq!(m.letters, "CABANES");
        assert_eq!((m.row_index, m.column_index), (7, 7));
        assert_eq!(m.score, 3 + 1 + 3 + 1 + 2 + 1 + 1);
    }
}

#[test]
fn a_game_of_best_moves_stays_within_the_rules() {
    let racks = ["CABANES", "TIRANTS", "DIAAIAU", "BRASTEN", "AEINRST", "USAITEN", "ADANEBR", "CATSUIE"];
    let mut plays: Vec<(String, usize, usize, bool)> = Vec::new();
    let mut counts = Vec::new();
    for rack in racks {
        let so_far: Vec<(&str, usize, usize, bool)> =
            plays.iter().map(|p| (p.0.as_str(), p.1, p.2, p.3)).collect();
        counts.push(check_against_rules(&so_far, rack));
        let lexicon = lexicon_of(&WORDS);
        let mut board = board_of(&so_far);
        let mut tiles = rack_of(rack);
        let moves = generate(&lexicon, &mut board, &mut tiles);
        if let Some(best) = moves.first() {
            plays.push((best.letters.clone(), best.row_index, best.column_index, best.across));
        }
    }
    assert_eq!(plays.len(), 8);
    assert_eq!(plays[0], ("CABANES".to_string(), 7, 3, true));
    assert!(counts.iter().all(|count| *count > 0), "{:?} {:?}", counts, plays);
    assert_eq!(counts, vec![56, 108, 19, 53, 31, 44, 22, 13]);
}

#[test]
fn anchors_of_the_empty_board() {
    let anchors = calculate_anchors(&Board::new());
    let mut expected = [0u16; 15];
    expected[7] = 1 << 7;
    assert_eq!(anchors, expected);
}

#[test]
fn anchors_surround_the_letters() {
    let board = board_of(&[("CAT", 7, 7, true)]);
    let anchors = calculate_anchors(&board);
    let mut expected = [0u16; 15];
    expected[6] = 0b111 << 7;
    expected[7] = (1 << 6) | (1 << 10);
    expected[8] = 0b111 << 7;
    assert_eq!(anchors, expected);
}

#[test]
fn anchors_at_the_corners() {
    let board = board_of(&[("A", 0, 0, true), ("B", 14, 14, true), ("C", 0, 14, true), ("D", 14, 0, true)]);
    let anchors = calculate_anchors(&board);
    let mut expected = [0u16; 15];
    expected[0] = (1 << 1) | (1 << 13);
    expected[1] = 1 | (1 << 14);
    expected[13] = 1 | (1 << 14);
    expected[14] = (1 << 1) | (1 << 13);
    assert_eq!(anchors, expected);
}

#[test]
fn full_board_has_no_anchor() {
    let mut board = Board::new();
    for r in 0..15 {
        board.play("AAAAAAAAAAAAAAA", r, 0, true).unwrap();
    }
    assert_eq!(calculate_anchors(&board), [0u16; 15]);
    let lexicon = lexicon_of(&["AAAAAAAAAAAAAAA"]);
    let mut rack = rack_of("A");
    assert!(generate(&lexicon, &mut board, &mut rack).is_empty());
}

#[test]
fn letter_set_and_score_of_a_column() {
    let lexicon = lexicon_of(&WORDS);
    let mut column = [0u8; 15];
    column[3] = 3;
    column[4] = 1;
    column[5] = 20;
    let (after, points) = calculate_letter_set_and_score(&lexicon, &column, 6);
    assert_eq!(after, 1 << (19 - 1));
    assert_eq!(points, 5);
    let (before, points) = calculate_letter_set_and_score(&lexicon, &column, 2);
    assert_eq!(before, 0);
    assert_eq!(points, 5);
    column[7] = 19;
    let (between, points) = calculate_letter_set_and_score(&lexicon, &column, 6);
    assert_eq!(between, 0);
    assert_eq!(points, 6);
    let mut column = [0u8; 15];
    column[0] = 2;
    column[2] = 18;
    let (between, points) = calculate_letter_set_and_score(&lexicon, &column, 1);
    assert_eq!(between, 1);
    assert_eq!(points, 4);
    let mut column = [0u8; 15];
    column[14] = 1;
    let (above, points) = calculate_letter_set_and_score(&lexicon, &column, 13);
    assert_eq!(points, 1);
    let expected: u32 = ["B", "R", "T", "S", "N", "D"].iter().map(|l| 1u32 << (l.as_bytes()[0] - 0x41)).sum();
    assert_eq!(above, expected);
    let (alone, points) = calculate_letter_set_and_score(&lexicon, &[0u8; 15], 7);
    assert_eq!((alone, points), (0, 0));
}

#[test]
fn cross_check_tables_of_a_board() {
    let lexicon = lexicon_of(&WORDS);
    let board = board_of(&[("CAT", 7, 7, true)]);
    let (sets, values) = calculate_cross_check_sets_and_value_set(&lexicon, &board);
    for r in 0..15 {
        for c in 0..15 {
            let beside = (r == 6 || r == 8) && (7..=9).contains(&c);
            if !beside {
                assert_eq!(sets[r][c], 67108863, "{} {}", r, c);
                assert_eq!(values[r][c], 0);
            }
        }
    }
    assert_eq!(values[6][7], 3);
    assert_eq!(values[8][8], 1);
    assert_eq!(values[6][9], 1);
    assert_eq!(sets[6][7], 0);
    assert_eq!(sets[8][7], 0);
    let bit = |c: char| 1u32 << (c as u8 - 0x41);
    assert_eq!(sets[6][8], bit('B') | bit('R') | bit('T') | bit('S') | bit('N') | bit('D'));
    assert_eq!(sets[8][8], bit('B') | bit('T') | bit('R') | bit('S') | bit('I') | bit('N'));
    assert_eq!(sets[6][9], bit('A') | bit('U') | bit('E'));
    assert_eq!(sets[8][9], bit('A') | bit('E'));
}

#[test]
fn rack_counts_go_up_and_down() {
    let mut rack = HashMap::new();
    add_letter_to_rack(&mut rack, 1);
    add_letter_to_rack(&mut rack, 1);
    add_letter_to_rack(&mut rack, 5);
    assert_eq!(rack.get(&1), Some(&2));
    assert_eq!(rack.get(&5), Some(&1));
    assert_eq!(rack.len(), 2);
    remove_letter_from_rack(&mut rack, 1);
    assert_eq!(rack.get(&1), Some(&1));
    remove_letter_from_rack(&mut rack, 1);
    assert_eq!(rack.get(&1), None);
    assert_eq!(rack.len(), 1);
    remove_letter_from_rack(&mut rack, 1);
    remove_letter_from_rack(&mut rack, 9);
    assert_eq!(rack.len(), 1);
    assert_eq!(rack.get(&5), Some(&1));
}

#[test]
fn new_move_carries_score_and_swaps_on_a_rotated_board() {
    let mut board = Board::new();
    let values = [[0u16; 15]; 15];
    let m = LegalMove::new(&board, &values, 7, 5, true, "CAT".to_string(), false);
    assert_eq!((m.row_index, m.column_index, m.across, m.score), (7, 5, true, 10));
    assert_eq!(m.letters, "CAT");
    board.rotate();
    let m = LegalMove::new(&board, &values, 7, 5, false, "CAT".to_string(), true);
    assert_eq!((m.row_index, m.column_index, m.across, m.score), (5, 7, false, 60));
}

#[test]
fn count_fresh_counts_empty_squares() {
    let board = board_of(&[("CAT", 7, 7, true)]);
    assert_eq!(count_fresh(&board, 7, 5, 7), 4);
    assert_eq!(count_fresh(&board, 7, 7, 3), 0);
    assert_eq!(count_fresh(&board, 6, 0, 15), 15);
    assert_eq!(count_fresh(&board, 7, 9, 0), 0);
}

#[test]
fn extend_right_continues_a_word_on_the_board() {
    let lexicon = lexicon_of(&["CAT", "CATS", "CATSUP"]);
    let board = board_of(&[("CAT", 7, 7, true)]);
    let (sets, values) = calculate_cross_check_sets_and_value_set(&lexicon, &board);
    let mut moves = Vec::new();
    let mut rack = rack_of("SUP");
    let mut partial = vec![3, 1, 20];
    let node = lexicon.root.get_node("CAT").unwrap();
    extend_right(&board, &sets, &values, &mut moves, 7, 7, node, &mut rack, &mut partial, false);
    assert_eq!(
        summary(&moves),
        vec![("CATS".to_string(), 7, 7, true, 6), ("CATSUP".to_string(), 7, 7, true, 11)]
    );
    assert_eq!(partial, vec![3, 1, 20]);
    assert_eq!(rack, rack_of("SUP"));
}

#[test]
fn extend_right_lays_allowed_tiles_of_the_rack_only() {
    let lexicon = lexicon_of(&WORDS);
    let board = board_of(&[("TIRANT", 7, 7, true), ("CABANES", 8, 4, true)]);
    let (sets, values) = calculate_cross_check_sets_and_value_set(&lexicon, &board);
    let words: HashSet<String> = WORDS.iter().map(|w| w.to_string()).collect();
    let mut added = 0;
    for row in 0..15 {
        for col in 0..15 {
            let mut moves = Vec::new();
            let mut rack = rack_of("DIAAIAU");
            let mut partial = Vec::new();
            extend_right(&board, &sets, &values, &mut moves, row, col, &lexicon.root, &mut rack, &mut partial, true);
            assert_eq!(rack, rack_of("DIAAIAU"));
            assert!(partial.is_empty());
            for m in &moves {
                assert!(words.contains(&m.letters));
                assert_eq!((m.row_index, m.column_index, m.across), (row, col, true));
                let end = col + m.letters.len();
                assert!(end == 15 || board.primary[row][end] == 0);
                let mut left = rack_of("DIAAIAU");
                for (k, c) in m.letters.bytes().enumerate() {
                    let l = c - 0x40;
                    if board.primary[row][col + k] == 0 {
                        assert!(sets[row][col + k] & (1 << (l - 1)) != 0);
                        assert!(left.contains_key(&l));
                        remove_letter_from_rack(&mut left, l);
                    } else {
                        assert_eq!(board.primary[row][col + k], l);
                    }
                }
            }
            added += moves.len();
        }
    }
    assert!(added > 0);
}

#[test]
fn left_part_takes_no_more_squares_than_allowed() {
    let lexicon = lexicon_of(&["CAT", "AT", "T"]);
    let board = Board::new();
    let (sets, values) = calculate_cross_check_sets_and_value_set(&lexicon, &board);
    let mut rack = rack_of("CAT");
    let mut partial = Vec::new();
    let at = |word: &str, col: usize| (word.to_string(), col);
    let cases = [
        (0u8, vec![at("AT", 7), at("CAT", 7), at("T", 7)]),
        (1, vec![at("AT", 7), at("CAT", 7), at("T", 7), at("AT", 6), at("CAT", 6)]),
        (2, vec![at("AT", 7), at("CAT", 7), at("T", 7), at("AT", 6), at("CAT", 6), at("CAT", 5)]),
        (7, vec![at("AT", 7), at("CAT", 7), at("T", 7), at("AT", 6), at("CAT", 6), at("CAT", 5)]),
    ];
    for (limit, expected) in cases {
        let mut moves = Vec::new();
        left_part(&board, &sets, &values, &mut moves, 7, 7, &lexicon.root, &mut rack, &mut partial, limit);
        let found: Vec<(String, usize)> = moves.iter().map(|m| (m.letters.clone(), m.column_index)).collect();
        assert_eq!(found, expected);
        assert!(moves.iter().all(|m| m.row_index == 7 && m.across));
    }
    assert!(partial.is_empty());
    assert_eq!(rack, rack_of("CAT"));
}

#[test]
fn rank_moves_is_stable() {
    let board = Board::new();
    let values = [[0u16; 15]; 15];
    let make = |word: &str, col: usize| LegalMove::new(&board, &values, 7, col, true, word.to_string(), false);
    let moves = vec![make("AT", 7), make("CAT", 7), make("TA", 6), make("ZA", 7), make("ACT", 5)];
    let ranked = rank_moves(moves);
    assert_eq!(
        summary(&ranked),
        vec![
            ("ZA".to_string(), 7, 7, true, 22),
            ("CAT".to_string(), 7, 7, true, 10),
            ("ACT".to_string(), 7, 5, true, 10),
            ("AT".to_string(), 7, 7, true, 4),
            ("TA".to_string(), 7, 6, true, 4),
        ]
    );
    assert!(rank_moves(Vec::new()).is_empty());
}
