use scrabble::dictionaries::tree_from_text;
use scrabble::error::Error;
use scrabble::lexicon::Lexicon;
use scrabble::text::split_lines;
use std::io::BufRead;

fn read_by_the_standard_reader(text: &str) -> Vec<String> {
    std::io::Cursor::new(text.as_bytes()).lines().map(|line| line.unwrap()).collect()
}

#[test]
fn lines_end_at_line_feeds() {
    assert_eq!(split_lines("CAT\nDOG\nEMU\n"), vec!["CAT", "DOG", "EMU"]);
    assert_eq!(split_lines("CAT\nDOG"), vec!["CAT", "DOG"]);
    assert_eq!(split_lines("CAT"), vec!["CAT"]);
}

#[test]
fn empty_text_has_no_line() {
    assert!(split_lines("").is_empty());
    assert_eq!(split_lines("\n"), vec![""]);
    assert_eq!(split_lines("\n\n"), vec!["", ""]);
    assert_eq!(split_lines("A\n\nB"), vec!["A", "", "B"]);
}

#[test]
fn carriage_return_before_a_line_feed_is_dropped() {
    assert_eq!(split_lines("CAT\r\nDOG\r\n"), vec!["CAT", "DOG"]);
    assert_eq!(split_lines("\r\n"), vec![""]);
    assert_eq!(split_lines("A\r\r\nB"), vec!["A\r", "B"]);
}

#[test]
fn other_carriage_returns_stay() {
    assert_eq!(split_lines("CAT\r"), vec!["CAT\r"]);
    assert_eq!(split_lines("CA\rT\nDOG"), vec!["CA\rT", "DOG"]);
    assert_eq!(split_lines("\r"), vec!["\r"]);
}

#[test]
fn lines_are_those_of_the_standard_reader() {
    let texts = [
        "", "\n", "\r", "\r\n", "A", "A\n", "A\r\n", "A\r", "A\nB", "A\n\nB\n", "été\nœuf\r\n",
        "\n\r\n\r", "A\r\r\n\rB\n\r", "AB\nCD\r\nEF", "  \n \r\n",
    ];
    for text in texts {
        assert_eq!(split_lines(text), read_by_the_standard_reader(text), "{:?}", text);
    }
}

#[test]
fn lexicon_from_text_holds_each_line() {
    let lexicon = Lexicon::from_text("CAT\nCATS\r\nDO").unwrap();
    for word in ["CAT", "CATS", "DO"] {
        assert!(lexicon.root.get_node(word).unwrap().is_terminal);
    }
    assert!(!lexicon.root.get_node("CA").unwrap().is_terminal);
    assert!(lexicon.root.get_node("DOG").is_none());
    assert!(!lexicon.root.is_terminal);
    assert!(Lexicon::from_text("").unwrap().root.children.is_empty());
    assert!(Lexicon::from_text("A\n\nB").unwrap().root.is_terminal);
}

#[test]
fn lexicon_from_text_names_the_first_invalid_character() {
    match Lexicon::from_text("CAT\nDoG\nxyz") {
        Err(e) => assert_eq!(e, Error::InvalidCharacter('o')),
        Ok(_) => panic!("the load should fail"),
    }
    match Lexicon::from_text("CAT\r") {
        Err(e) => assert_eq!(e, Error::InvalidCharacter('\r')),
        Ok(_) => panic!("the load should fail"),
    }
}

#[test]
fn tree_from_text_holds_each_line() {
    let tree = tree_from_text("chat\nchats\r\nété");
    let accepts = |word: &str| {
        let mut node = &tree;
        for c in word.chars() {
            match node.get_node(&c) {
                Some(next) => node = next,
                None => return false,
            }
        }
        node.is_terminal
    };
    assert!(accepts("chat"));
    assert!(accepts("chats"));
    assert!(accepts("été"));
    assert!(!accepts("cha"));
    assert!(!accepts(""));
    assert!(!accepts("chats\r"));
}
