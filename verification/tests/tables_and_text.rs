use scrabble::boards::{load_board, Tile, TileType};
use scrabble::dictionaries::{available_languages, build_tree, listing, Dictionary, Language};
use scrabble::display::WindowSize;
use scrabble::render::{render_board, render_tiles};
use scrabble::score::PREMIUM_SQUARES;
use scrabble::tiles::load_tiles;
use scrabble::tree::Node;

fn accepts(tree: &Node, word: &str) -> bool {
    let mut node = tree;
    for c in word.chars() {
        match node.get_node(&c) {
            Some(next) => node = next,
            None => return false,
        }
    }
    node.is_terminal
}

#[test]
fn tree_node_starts_without_edges() {
    let node = Node::new(true);
    assert!(node.is_terminal);
    assert!(node.edges.is_empty());
    assert!(!node.contains_edge(&'a'));
    assert!(node.get_node(&'a').is_none());
}

#[test]
fn tree_edges_are_found_by_their_character() {
    let mut node = Node::new(false);
    node.insert_edge('é', Node::new(true));
    node.insert_edge('a', Node::new(false));
    assert!(node.contains_edge(&'é'));
    assert!(node.contains_edge(&'a'));
    assert!(!node.contains_edge(&'e'));
    assert!(node.get_node(&'é').unwrap().is_terminal);
    assert!(!node.get_node(&'a').unwrap().is_terminal);
    assert!(!node.is_terminal);
    node.insert_edge('a', Node::new(true));
    assert!(node.get_node(&'a').unwrap().is_terminal);
    assert_eq!(node.edges.len(), 2);
}

#[test]
fn tree_node_can_be_changed_in_place() {
    let mut node = Node::new(false);
    node.insert_edge('x', Node::new(false));
    assert!(node.get_node_mut(&'y').is_none());
    {
        let child = node.get_node_mut(&'x').unwrap();
        assert!(!child.is_terminal);
        child.is_terminal = true;
        child.insert_edge('z', Node::new(true));
    }
    let child = node.get_node(&'x').unwrap();
    assert!(child.is_terminal);
    assert!(child.contains_edge(&'z'));
    assert_eq!(node.edges.len(), 1);
}

#[test]
fn tree_add_word_marks_the_last_node() {
    let mut tree = Node::new(false);
    tree.add_word("cats");
    assert!(accepts(&tree, "cats"));
    assert!(!accepts(&tree, "cat"));
    tree.add_word("cat");
    assert!(accepts(&tree, "cat"));
    assert!(accepts(&tree, "cats"));
    assert!(!accepts(&tree, "ca"));
    assert!(!accepts(&tree, ""));
    tree.add_word("");
    assert!(accepts(&tree, ""));
}

#[test]
fn build_tree_holds_every_line() {
    let lines: Vec<String> = ["chat", "chats", "chien", "été"].iter().map(|w| w.to_string()).collect();
    let tree = build_tree(&lines);
    for word in ["chat", "chats", "chien", "été"] {
        assert!(accepts(&tree, word), "{}", word);
    }
    for word in ["", "c", "cha", "chie", "chiens", "ét", "ete"] {
        assert!(!accepts(&tree, word), "{}", word);
    }
    assert_eq!(tree.edges.len(), 2);
    assert!(!build_tree(&Vec::new()).is_terminal);
}

#[test]
fn dictionary_path_is_built_from_its_names() {
    let dictionary = Dictionary::new("French", "ODS 8");
    assert_eq!(dictionary.name, "ODS 8");
    assert_eq!(dictionary.path, "src/dictionaries/French/ODS 8.txt");
    assert_eq!(dictionary.describe(), "name: ODS 8, path: src/dictionaries/French/ODS 8.txt");
    let empty = Dictionary::new("", "");
    assert_eq!(empty.path, "src/dictionaries//.txt");
}

#[test]
fn language_holds_its_dictionaries() {
    let language = Language::new("English", vec!["Example", "Other"]);
    assert_eq!(language.name, "English");
    assert_eq!(language.dictionaries.len(), 2);
    assert_eq!(language.dictionaries[0].name, "Example");
    assert_eq!(language.dictionaries[0].path, "src/dictionaries/English/Example.txt");
    assert_eq!(language.dictionaries[1].path, "src/dictionaries/English/Other.txt");
    assert_eq!(
        language.describe(),
        "name: English, dictionaries: [name: Example, path: src/dictionaries/English/Example.txt, \
         name: Other, path: src/dictionaries/English/Other.txt]"
    );
    assert_eq!(Language::new("None", vec![]).describe(), "name: None, dictionaries: []");
}

#[test]
fn available_languages_are_english_and_french() {
    let languages = available_languages();
    assert_eq!(languages.len(), 2);
    assert_eq!(languages[0].name, "English");
    assert_eq!(languages[0].dictionaries[0].path, "src/dictionaries/English/Example.txt");
    assert_eq!(languages[1].name, "French");
    assert_eq!(languages[1].dictionaries[0].name, "ODS 8");
}

#[test]
fn listing_draws_the_languages_as_a_tree() {
    let lines = listing(&available_languages());
    assert_eq!(
        lines,
        vec![
            "┏━ English",
            "┃  ┗━ Example (src/dictionaries/English/Example.txt)",
            "┗━ French",
            "   ┗━ ODS 8 (src/dictionaries/French/ODS 8.txt)",
        ]
    );
}

#[test]
fn listing_marks_middle_entries() {
    let languages = vec![
        Language::new("A", vec!["a1", "a2"]),
        Language::new("B", vec![]),
        Language::new("C", vec!["c1", "c2", "c3"]),
    ];
    assert_eq!(
        listing(&languages),
        vec![
            "┏━ A",
            "┃  ┣━ a1 (src/dictionaries/A/a1.txt)",
            "┃  ┗━ a2 (src/dictionaries/A/a2.txt)",
            "┣━ B",
            "┗━ C",
            "   ┣━ c1 (src/dictionaries/C/c1.txt)",
            "   ┣━ c2 (src/dictionaries/C/c2.txt)",
            "   ┗━ c3 (src/dictionaries/C/c3.txt)",
        ]
    );
    assert!(listing(&Vec::new()).is_empty());
    assert_eq!(listing(&vec![Language::new("Only", vec!["x"])]), vec!["┏━ Only", "┃  ┗━ x (src/dictionaries/Only/x.txt)"]);
}

#[test]
fn tile_starts_empty() {
    let tile = Tile::new(TileType::TripleWord);
    assert_eq!(tile.letter, None);
    assert!(!tile.is_joker);
    assert_eq!(tile.tile_type, TileType::TripleWord);
}

#[test]
fn loaded_board_follows_the_premium_table() {
    let board = load_board();
    assert_eq!(board.rows.len(), 15);
    for r in 0..15 {
        assert_eq!(board.rows[r].len(), 15);
        for c in 0..15 {
            let tile = &board.rows[r][c];
            assert_eq!(tile.letter, None);
            assert!(!tile.is_joker);
            let expected = match PREMIUM_SQUARES[r][c] {
                1 => TileType::DoubleCharacter,
                2 => TileType::TripleCharacter,
                3 => TileType::DoubleWord,
                4 => TileType::TripleWord,
                _ => TileType::Normal,
            };
            assert_eq!(tile.tile_type, expected);
        }
    }
    assert_eq!(board.rows[0][0].tile_type, TileType::TripleWord);
    assert_eq!(board.rows[7][7].tile_type, TileType::DoubleWord);
    assert_eq!(board.rows[7][3].tile_type, TileType::DoubleCharacter);
    assert_eq!(board.rows[5][1].tile_type, TileType::TripleCharacter);
    assert_eq!(board.rows[0][1].tile_type, TileType::Normal);
}

#[test]
fn tiles_give_the_points_of_each_letter() {
    let tiles = load_tiles();
    assert_eq!(tiles.len(), 26);
    let expected = [1, 3, 3, 2, 1, 4, 2, 4, 1, 8, 10, 1, 2, 1, 1, 3, 8, 1, 1, 1, 1, 4, 10, 10, 10, 10];
    for (i, value) in expected.iter().enumerate() {
        assert_eq!(tiles.get(&(i as u8 + 1)), Some(value));
    }
    assert_eq!(tiles.get(&0), None);
    assert_eq!(tiles.get(&27), None);
}

#[test]
fn window_size_starts_at_zero() {
    let size = WindowSize::new();
    assert_eq!((size.rows, size.columns, size.width, size.height), (0, 0, 0, 0));
}

#[test]
fn rendered_board_has_borders_and_letters() {
    let mut board = scrabble::board::Board::new();
    board.play("CAT", 7, 7, true).unwrap();
    let text = render_board(&board);
    let lines: Vec<&str> = text.split('\n').collect();
    assert_eq!(lines.len(), 32);
    assert_eq!(lines[31], "");
    assert_eq!(lines[0], "┌───┬───┬───┬───┬───┬───┬───┬───┬───┬───┬───┬───┬───┬───┬───┐");
    assert_eq!(lines[2], "├───┼───┼───┼───┼───┼───┼───┼───┼───┼───┼───┼───┼───┼───┼───┤");
    assert_eq!(lines[30], "└───┴───┴───┴───┴───┴───┴───┴───┴───┴───┴───┴───┴───┴───┴───┘");
    assert_eq!(
        lines[15 + 0],
        "│\x1b[101m   \x1b[0m│   │   │\x1b[106m   \x1b[0m│   │   │   │\x1b[105m C \x1b[0m│ A │ T │   \
         │\x1b[106m   \x1b[0m│   │   │\x1b[101m   \x1b[0m│"
    );
    assert_eq!(
        lines[3],
        "│   │\x1b[105m   \x1b[0m│   │   │   │\x1b[104m   \x1b[0m│   │   │   │\x1b[104m   \x1b[0m│   │   │   \
         │\x1b[105m   \x1b[0m│   │"
    );
}

#[test]
fn rendered_tiles_have_rules_and_colours() {
    let mut board = load_board();
    board.rows[0][1].letter = Some('Q');
    let text = render_tiles(&board);
    let lines: Vec<&str> = text.split('\n').collect();
    assert_eq!(lines.len(), 32);
    let rule = "━".repeat(61);
    assert_eq!(lines[0], rule);
    assert_eq!(lines[2], rule);
    assert_eq!(lines[30], rule);
    assert_eq!(
        lines[1],
        "┃\x1b[41m   \x1b[0m┃ Q \x1b[0m┃   \x1b[0m┃\x1b[46m   \x1b[0m┃   \x1b[0m┃   \x1b[0m┃   \x1b[0m┃\x1b[41m   \x1b[0m┃   \x1b[0m┃   \x1b[0m┃   \x1b[0m┃\x1b[46m   \x1b[0m┃   \x1b[0m┃   \x1b[0m┃\x1b[41m   \x1b[0m┃"
    );
    let empty = scrabble::boards::Board::new(Vec::new());
    assert_eq!(render_tiles(&empty), format!("{}\n", rule));
}

fn reaches(tree: &Node, word: &str) -> bool {
    let mut node = tree;
    for c in word.chars() {
        match node.get_node(&c) {
            Some(next) => node = next,
            None => return false,
        }
    }
    true
}

#[test]
fn built_tree_has_a_node_exactly_for_each_beginning_of_a_line() {
    let words = ["chat", "chats", "chien", "été"];
    let lines: Vec<String> = words.iter().map(|w| w.to_string()).collect();
    let tree = build_tree(&lines);
    for word in words {
        let chars: Vec<char> = word.chars().collect();
        for n in 0..=chars.len() {
            let begin: String = chars[..n].iter().collect();
            assert!(reaches(&tree, &begin), "{}", begin);
        }
    }
    for other in ["x", "ca", "chas", "chatsx", "chiens", "éta", "e", "hat"] {
        assert!(!reaches(&tree, other), "{}", other);
    }
    assert_eq!(tree.get_node(&'c').unwrap().edges.len(), 1);
    assert_eq!(tree.get_node(&'c').unwrap().get_node(&'h').unwrap().edges.len(), 2);
}

#[test]
fn add_word_adds_nodes_for_its_beginnings_only() {
    let mut tree = Node::new(false);
    tree.add_word("ab");
    assert!(reaches(&tree, "") && reaches(&tree, "a") && reaches(&tree, "ab"));
    assert!(!reaches(&tree, "b") && !reaches(&tree, "abc") && !reaches(&tree, "aa"));
    assert_eq!(tree.edges.len(), 1);
    tree.add_word("ac");
    assert!(reaches(&tree, "ac") && reaches(&tree, "ab"));
    assert_eq!(tree.edges.len(), 1);
    assert_eq!(tree.get_node(&'a').unwrap().edges.len(), 2);
}
