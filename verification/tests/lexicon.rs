use scrabble::error::Error;
use scrabble::lexicon::{Lexicon, Node};

fn lexicon_of(words: &[&str]) -> Lexicon {
    let words: Vec<String> = words.iter().map(|w| w.to_string()).collect();
    Lexicon::from_words(&words).unwrap()
}

fn holds(lexicon: &Lexicon, word: &str) -> bool {
    match lexicon.root.get_node(word) {
        Some(node) => node.is_terminal,
        None => false,
    }
}

#[test]
fn new_lexicon_holds_nothing() {
    let lexicon = Lexicon::new();
    assert!(!lexicon.root.is_terminal);
    assert!(lexicon.root.children.is_empty());
    assert!(!holds(&lexicon, ""));
    assert!(!holds(&lexicon, "A"));
}

#[test]
fn new_node_has_no_children() {
    let node = Node::new(true);
    assert!(node.is_terminal);
    assert!(node.children.is_empty());
    assert!(!Node::new(false).is_terminal);
}

#[test]
fn lexicon_holds_exactly_its_words() {
    let lexicon = lexicon_of(&["CAT", "CATS", "CAB", "DO"]);
    for word in ["CAT", "CATS", "CAB", "DO"] {
        assert!(holds(&lexicon, word), "{}", word);
    }
    for word in ["", "C", "CA", "CATSS", "D", "DOG", "TAC", "A"] {
        assert!(!holds(&lexicon, word), "{}", word);
    }
}

#[test]
fn get_node_walks_prefixes() {
    let lexicon = lexicon_of(&["CAT", "CATS", "CAB"]);
    let root = &lexicon.root;
    assert!(root.get_node("").is_some());
    let ca = root.get_node("CA").unwrap();
    assert!(!ca.is_terminal);
    assert_eq!(ca.children.len(), 2);
    assert!(ca.children.contains_key(&20));
    assert!(ca.children.contains_key(&2));
    let cat = ca.get_node("T").unwrap();
    assert!(cat.is_terminal);
    assert!(cat.get_node("S").unwrap().is_terminal);
    assert!(root.get_node("CAX").is_none());
    assert!(root.get_node("X").is_none());
    assert!(root.get_node("CATSX").is_none());
}

#[test]
fn get_node_finds_nothing_for_other_characters() {
    let lexicon = lexicon_of(&["CAT"]);
    assert!(lexicon.root.get_node("cat").is_none());
    assert!(lexicon.root.get_node("CA?").is_none());
    assert!(lexicon.root.get_node("C-T").is_none());
}

#[test]
fn find_and_child_follow_codes() {
    let lexicon = lexicon_of(&["CAT"]);
    let c = lexicon.root.child(3).unwrap();
    assert!(lexicon.root.child(4).is_none());
    assert!(c.child(1).is_some());
    assert!(lexicon.root.find(&vec![3, 1, 20]).unwrap().is_terminal);
    assert!(!lexicon.root.find(&vec![3, 1]).unwrap().is_terminal);
    assert!(lexicon.root.find(&vec![3, 1, 20, 19]).is_none());
    assert!(lexicon.root.find(&vec![]).is_some());
}

#[test]
fn insert_adds_one_word() {
    let mut lexicon = lexicon_of(&["CATS"]);
    assert!(!holds(&lexicon, "CAT"));
    assert_eq!(lexicon.insert("CAT"), Ok(()));
    assert!(holds(&lexicon, "CAT"));
    assert!(holds(&lexicon, "CATS"));
    assert!(!holds(&lexicon, "CA"));
    assert_eq!(lexicon.insert("CAT"), Ok(()));
    assert!(holds(&lexicon, "CAT"));
}

#[test]
fn insert_of_the_empty_word_marks_the_root() {
    let mut lexicon = Lexicon::new();
    assert_eq!(lexicon.insert(""), Ok(()));
    assert!(lexicon.root.is_terminal);
    assert!(holds(&lexicon, ""));
}

#[test]
fn insert_refuses_invalid_characters() {
    let mut lexicon = lexicon_of(&["CAT"]);
    assert_eq!(lexicon.insert("DoG"), Err(Error::InvalidCharacter('o')));
    assert!(!holds(&lexicon, "D"));
    assert!(lexicon.root.get_node("D").is_none());
    assert_eq!(lexicon.root.children.len(), 1);
}

#[test]
fn from_words_stops_at_the_first_invalid_word() {
    let words: Vec<String> = ["CAT", "D0G", "b!"].iter().map(|w| w.to_string()).collect();
    match Lexicon::from_words(&words) {
        Err(e) => assert_eq!(e, Error::InvalidCharacter('0')),
        Ok(_) => panic!("the load should fail"),
    }
}

#[test]
fn from_words_of_nothing_is_empty() {
    let lexicon = Lexicon::from_words(&Vec::new()).unwrap();
    assert!(lexicon.root.children.is_empty());
    assert!(!lexicon.root.is_terminal);
}

fn strings_up_to(alphabet: &[char], len: usize) -> Vec<String> {
    let mut all = vec![String::new()];
    let mut last = vec![String::new()];
    for _ in 0..len {
        let mut next = Vec::new();
        for s in &last {
            for c in alphabet {
                let mut t = s.clone();
                t.push(*c);
                next.push(t);
            }
        }
        all.extend(next.iter().cloned());
        last = next;
    }
    all
}

#[test]
fn trie_has_a_node_exactly_for_each_beginning_of_a_word() {
    let words = ["CAT", "CATS", "CAB", "DO", "A"];
    let lexicon = lexicon_of(&words);
    for w in strings_up_to(&['A', 'B', 'C', 'D', 'O', 'S', 'T'], 5) {
        let begins = words.iter().any(|word| word.starts_with(w.as_str()));
        let node = lexicon.root.get_node(&w);
        assert_eq!(node.is_some(), begins, "{}", w);
        if let Some(node) = node {
            assert_eq!(node.is_terminal, words.contains(&w.as_str()), "{}", w);
        }
    }
    assert_eq!(lexicon.root.children.len(), 3);
}

#[test]
fn insert_adds_nodes_for_the_beginnings_of_the_word_only() {
    let mut lexicon = lexicon_of(&["CAT"]);
    lexicon.insert("COD").unwrap();
    for w in strings_up_to(&['A', 'C', 'D', 'O', 'T'], 4) {
        let begins = "CAT".starts_with(w.as_str()) || "COD".starts_with(w.as_str());
        assert_eq!(lexicon.root.get_node(&w).is_some(), begins, "{}", w);
    }
    let c = lexicon.root.get_node("C").unwrap();
    assert_eq!(c.children.len(), 2);
    assert!(lexicon.root.get_node("COD").unwrap().children.is_empty());
}

#[test]
fn order_and_repeats_of_the_words_do_not_matter() {
    let one = lexicon_of(&["CAT", "CAB", "DO", "CAT"]);
    let other = lexicon_of(&["DO", "CAB", "CAT"]);
    for w in strings_up_to(&['A', 'B', 'C', 'D', 'O', 'T'], 4) {
        let a = one.root.get_node(&w);
        let b = other.root.get_node(&w);
        assert_eq!(a.is_some(), b.is_some(), "{}", w);
        if let (Some(a), Some(b)) = (a, b) {
            assert_eq!(a.is_terminal, b.is_terminal, "{}", w);
            assert_eq!(a.children.len(), b.children.len(), "{}", w);
        }
    }
}
