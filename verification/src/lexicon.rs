use std::collections::HashMap;
use vstd::prelude::*;
use crate::error::Error;
use crate::letter::{all_tile_chars, first_invalid, letters_of, parse_word, Letter};
use crate::text::{line_texts, split_lines, text_lines};

verus! {

broadcast use vstd::std_specs::hash::group_hash_axioms;

/// A node of the lexicon trie: whether the letters that lead to it spell a
/// word, and the nodes one letter further.
pub struct Node {
    pub is_terminal: bool,
    pub children: HashMap<Letter, Node>,
}

impl Node {
    /// The node reached from this one by following `word` letter by letter,
    /// if every edge on the way exists.
    pub open spec fn descend(self, word: Seq<Letter>) -> Option<Node>
        decreases word.len(),
    {
        if word.len() == 0 {
            Some(self)
        } else if self.children@.contains_key(word[0]) {
            self.children@[word[0]].descend(word.skip(1))
        } else {
            None
        }
    }

    /// Whether `word`, read from this node, ends on a terminal node.
    pub open spec fn accepts(self, word: Seq<Letter>) -> bool {
        match self.descend(word) {
            Some(node) => node.is_terminal,
            None => false,
        }
    }

    /// The node one `letter` further, if that edge exists.
    pub open spec fn step(self, letter: Letter) -> Option<Node> {
        if self.children@.contains_key(letter) {
            Some(self.children@[letter])
        } else {
            None
        }
    }

    /// A node without children.
    pub fn new(is_terminal: bool) -> (node: Node)
        ensures
            node.is_terminal == is_terminal,
            node.children@ == Map::<Letter, Node>::empty(),
    {
        Node { is_terminal, children: HashMap::new() }
    }

    /// The child reached by `letter`.
    pub fn child(&self, letter: Letter) -> (r: Option<&Node>)
        ensures
            r.is_some() == self.step(letter).is_some(),
            r.is_some() ==> *r.unwrap() == self.step(letter).unwrap(),
    {
        self.children.get(&letter)
    }

    /// The node reached by following the tile codes of `word`.
    pub fn find(&self, word: &Vec<Letter>) -> (r: Option<&Node>)
        ensures
            r.is_some() == self.descend(word@).is_some(),
            r.is_some() ==> *r.unwrap() == self.descend(word@).unwrap(),
    {
        let mut current: &Node = self;
        let mut i: usize = 0;
        proof {
            assert(word@.skip(0) =~= word@);
        }
        while i < word.len()
            invariant
                i <= word.len(),
                self.descend(word@) == current.descend(word@.skip(i as int)),
            decreases word.len() - i,
        {
            let ghost rest = word@.skip(i as int);
            proof {
                assert(rest.len() > 0);
                assert(rest[0] == word@[i as int]);
                assert(rest.skip(1) =~= word@.skip(i + 1));
            }
            match current.child(word[i]) {
                Some(next) => {
                    current = next;
                },
                None => {
                    return None;
                },
            }
            i = i + 1;
        }
        proof {
            assert(word@.skip(i as int).len() == 0);
        }
        Some(current)
    }

    /// The node reached by following `partial_word`; none when an edge is
    /// missing, or when a character of it stands for no tile.
    pub fn get_node(&self, partial_word: &str) -> (r: Option<&Node>)
        ensures
            r.is_some() == (all_tile_chars(partial_word@) && self.descend(
                letters_of(partial_word@),
            ).is_some()),
            r.is_some() ==> *r.unwrap() == self.descend(letters_of(partial_word@)).unwrap(),
    {
        match parse_word(partial_word) {
            Ok(letters) => self.find(&letters),
            Err(_) => None,
        }
    }

    /// Adds the letters of `word` from position `from` on below this node and
    /// marks the node they lead to as terminal.
    fn insert_from(&mut self, word: &Vec<Letter>, from: usize)
        requires
            from <= word.len(),
        ensures
            forall|w: Seq<Letter>|
                final(self).accepts(w) <==> old(self).accepts(w) || w == word@.skip(from as int),
            forall|w: Seq<Letter>|
                (#[trigger] final(self).descend(w)) is Some <==> old(self).descend(w) is Some || (
                w.len() <= word@.len() - from && word@.subrange(from as int, from + w.len()) == w),
        decreases word.len() - from,
    {
        let ghost suffix = word@.skip(from as int);
        if from == word.len() {
            self.is_terminal = true;
            proof {
                assert forall|w: Seq<Letter>|
                    (#[trigger] self.descend(w)) is Some <==> old(self).descend(w) is Some || (
                    w.len() <= word@.len() - from && word@.subrange(from as int, from + w.len())
                        == w) by {
                    if w.len() == 0 {
                        assert(self.descend(w) == Some(*self));
                        assert(old(self).descend(w) == Some(*old(self)));
                    } else {
                        assert(self.children@ == old(self).children@);
                        assert(self.descend(w) == old(self).descend(w));
                    }
                }
                assert forall|w: Seq<Letter>| self.accepts(w) <==> old(self).accepts(w) || w
                    == suffix by {
                    if w.len() == 0 {
                        assert(w =~= suffix);
                        assert(self.descend(w) == Some(*self));
                    } else {
                        assert(self.children@ == old(self).children@);
                        assert(self.descend(w) == old(self).descend(w));
                    }
                }
            }
        } else {
            let letter = word[from];
            let had = self.children.contains_key(&letter);
            let mut child = match self.children.remove(&letter) {
                Some(child) => child,
                None => Node::new(false),
            };
            let ghost before = child;
            child.insert_from(word, from + 1);
            let ghost after = child;
            self.children.insert(letter, child);
            proof {
                let rest = word@.skip(from + 1);
                assert(suffix.len() > 0 && suffix[0] == letter);
                assert(suffix.skip(1) =~= rest);
                assert(self.children@ =~= old(self).children@.insert(letter, after));
                assert(self.is_terminal == old(self).is_terminal);
                assert forall|w: Seq<Letter>|
                    (#[trigger] self.descend(w)) is Some <==> old(self).descend(w) is Some || (
                    w.len() <= word@.len() - from && word@.subrange(from as int, from + w.len())
                        == w) by {
                    if w.len() <= word@.len() - from {
                        assert(word@.subrange(from as int, from + w.len()) =~= suffix.take(
                            w.len() as int,
                        ));
                    }
                    if w.len() == 0 {
                        assert(self.descend(w) == Some(*self));
                        assert(old(self).descend(w) == Some(*old(self)));
                        assert(suffix.take(0) =~= w);
                    } else if w[0] == letter {
                        let tail = w.skip(1);
                        assert(self.descend(w) == after.descend(tail));
                        assert(after.descend(tail) is Some <==> before.descend(tail) is Some || (
                        tail.len() <= word@.len() - (from + 1) && word@.subrange(
                            from + 1,
                            from + 1 + tail.len(),
                        ) == tail));
                        if tail.len() <= word@.len() - (from + 1) {
                            assert(word@.subrange(from + 1, from + 1 + tail.len()) =~= rest.take(
                                tail.len() as int,
                            ));
                        }
                        if had {
                            assert(old(self).children@[letter] == before);
                            assert(old(self).descend(w) == before.descend(tail));
                        } else {
                            lemma_leaf_leads_nowhere(before, tail);
                            assert(old(self).descend(w) is None);
                            if tail.len() == 0 {
                                assert(rest.take(0) =~= tail);
                            }
                        }
                        lemma_prefix_by_head(w, suffix);
                        assert(starts(w, suffix) <==> starts(tail, rest));
                        assert(starts(tail, rest) <==> (tail.len() <= word@.len() - (from + 1)
                            && word@.subrange(from + 1, from + 1 + tail.len()) == tail));
                        assert(starts(w, suffix) <==> (w.len() <= word@.len() - from
                            && word@.subrange(from as int, from + w.len()) == w));
                    } else {
                        assert(self.children@.contains_key(w[0]) == old(self).children@.contains_key(
                            w[0],
                        ));
                        if self.children@.contains_key(w[0]) {
                            assert(self.children@[w[0]] == old(self).children@[w[0]]);
                        }
                        lemma_prefix_by_head(w, suffix);
                        assert(!starts(w, suffix));
                        assert(starts(w, suffix) <==> (w.len() <= word@.len() - from
                            && word@.subrange(from as int, from + w.len()) == w));
                        assert(self.descend(w) == old(self).descend(w));
                    }
                }
                assert forall|w: Seq<Letter>| self.accepts(w) <==> old(self).accepts(w) || w
                    == suffix by {
                    if w.len() == 0 {
                        assert(self.descend(w) == Some(*self));
                        assert(old(self).descend(w) == Some(*old(self)));
                    } else if w[0] == letter {
                        assert(self.descend(w) == after.descend(w.skip(1)));
                        assert(after.accepts(w.skip(1)) <==> before.accepts(w.skip(1)) || w.skip(1)
                            == rest);
                        if had {
                            assert(old(self).children@[letter] == before);
                            assert(old(self).descend(w) == before.descend(w.skip(1)));
                        } else {
                            lemma_leaf_accepts_nothing(before, w.skip(1));
                            assert(old(self).descend(w) is None);
                        }
                        if w.skip(1) == rest {
                            assert(w =~= seq![w[0]] + w.skip(1));
                            assert(suffix =~= seq![suffix[0]] + suffix.skip(1));
                        }
                    } else {
                        assert(self.children@.contains_key(w[0]) == old(self).children@.contains_key(
                            w[0],
                        ));
                        if self.children@.contains_key(w[0]) {
                            assert(self.children@[w[0]] == old(self).children@[w[0]]);
                        }
                    }
                }
            }
        }
    }
}

/// A node without children and without the terminal mark accepts no word.
pub proof fn lemma_leaf_accepts_nothing(node: Node, w: Seq<Letter>)
    requires
        !node.is_terminal,
        node.children@ == Map::<Letter, Node>::empty(),
    ensures
        !node.accepts(w),
{
}

/// From a node without children only the empty word leads to a node.
pub proof fn lemma_leaf_leads_nowhere(node: Node, w: Seq<Letter>)
    requires
        node.children@ == Map::<Letter, Node>::empty(),
    ensures
        node.descend(w) is Some <==> w.len() == 0,
{
}

/// Whether `w` begins `word`.
pub open spec fn starts<T>(w: Seq<T>, word: Seq<T>) -> bool {
    w.len() <= word.len() && word.take(w.len() as int) == w
}

/// What is not empty begins a word when both start alike and the rest of
/// the first begins the rest of the second.
pub proof fn lemma_prefix_by_head<T>(w: Seq<T>, word: Seq<T>)
    requires
        w.len() > 0,
    ensures
        starts(w, word) <==> word.len() > 0 && w[0] == word[0] && starts(w.skip(1), word.skip(1)),
{
    let n = w.len() as int;
    if starts(w, word) {
        assert(w[0] == word.take(n)[0]);
        assert(w.skip(1) =~= word.skip(1).take(n - 1));
    }
    if word.len() > 0 && w[0] == word[0] && starts(w.skip(1), word.skip(1)) {
        assert forall|i: int| 0 <= i < n implies w[i] == word.take(n)[i] by {
            if i > 0 {
                assert(w[i] == w.skip(1)[i - 1]);
                assert(w.skip(1)[i - 1] == word.skip(1).take(n - 1)[i - 1]);
            }
        }
        assert(w =~= word.take(n));
    }
}

/// Following `a` and then `b` is following their concatenation.
pub proof fn lemma_descend_concat(node: Node, a: Seq<Letter>, b: Seq<Letter>)
    ensures
        node.descend(a + b) == match node.descend(a) {
            Some(mid) => mid.descend(b),
            None => None,
        },
    decreases a.len(),
{
    if a.len() == 0 {
        assert(a + b =~= b);
    } else {
        assert((a + b)[0] == a[0]);
        assert((a + b).skip(1) =~= a.skip(1) + b);
        if node.children@.contains_key(a[0]) {
            lemma_descend_concat(node.children@[a[0]], a.skip(1), b);
        }
    }
}

/// Following `a` and then one more letter is following `a` with the letter
/// appended.
pub proof fn lemma_descend_push(node: Node, a: Seq<Letter>, letter: Letter)
    ensures
        node.descend(a.push(letter)) == match node.descend(a) {
            Some(mid) => mid.step(letter),
            None => None,
        },
{
    lemma_descend_concat(node, a, seq![letter]);
    assert(a.push(letter) =~= a + seq![letter]);
    if let Some(mid) = node.descend(a) {
        let one = seq![letter];
        assert(one.len() == 1 && one[0] == letter);
        if mid.children@.contains_key(letter) {
            assert(one.skip(1).len() == 0);
            assert(mid.children@[letter].descend(one.skip(1)) == Some(mid.children@[letter]));
        }
    }
}

/// Whether `w` is empty or begins one of the first `k` words.
pub open spec fn begins_one_of(words: Seq<String>, k: int, w: Seq<Letter>) -> bool {
    w.len() == 0 || exists|i: int|
        0 <= i < k && w.len() <= words[i]@.len() && letters_of(#[trigger] words[i]@).take(
            w.len() as int,
        ) == w
}

/// Where a trie has a node for the beginnings of the first `k` words and
/// gains a node for each beginning of the next word, it has a node for the
/// beginnings of the first `k + 1` words.
pub proof fn lemma_nodes_after_insert(before: Lexicon, after: Lexicon, words: Seq<String>, k: int)
    requires
        0 <= k < words.len(),
        forall|w: Seq<Letter>|
            (#[trigger] before.root.descend(w)) is Some <==> begins_one_of(words, k, w),
        forall|w: Seq<Letter>|
            (#[trigger] after.root.descend(w)) is Some <==> before.root.descend(w) is Some || (
            w.len() <= words[k]@.len() && letters_of(words[k]@).take(w.len() as int) == w),
    ensures
        forall|w: Seq<Letter>|
            (#[trigger] after.root.descend(w)) is Some <==> begins_one_of(words, k + 1, w),
{
    assert forall|w: Seq<Letter>|
        (#[trigger] after.root.descend(w)) is Some <==> begins_one_of(words, k + 1, w) by {
        assert(before.root.descend(w) is Some <==> begins_one_of(words, k, w));
        if begins_one_of(words, k, w) && w.len() > 0 {
            let j = choose|j: int|
                0 <= j < k && w.len() <= words[j]@.len() && letters_of(#[trigger] words[j]@).take(
                    w.len() as int,
                ) == w;
            assert(0 <= j < k + 1 && letters_of(words[j]@).take(w.len() as int) == w);
        }
        if begins_one_of(words, k + 1, w) && w.len() > 0 {
            let j = choose|j: int|
                0 <= j < k + 1 && w.len() <= words[j]@.len() && letters_of(
                    #[trigger] words[j]@,
                ).take(w.len() as int) == w;
            if j < k {
                assert(begins_one_of(words, k, w));
            }
        }
    }
}

/// The admissible words, held as a trie.
pub struct Lexicon {
    pub root: Node,
}

impl Lexicon {
    /// Whether `word` is in the lexicon.
    pub open spec fn contains(&self, word: Seq<Letter>) -> bool {
        self.root.accepts(word)
    }

    /// The lexicon without any word: the root alone.
    pub fn new() -> (lexicon: Lexicon)
        ensures
            forall|w: Seq<Letter>| !lexicon.contains(w),
            forall|w: Seq<Letter>| (#[trigger] lexicon.root.descend(w)) is Some <==> w.len() == 0,
            lexicon.root.children@ == Map::<Letter, Node>::empty(),
            !lexicon.root.is_terminal,
    {
        let lexicon = Lexicon { root: Node::new(false) };
        proof {
            assert forall|w: Seq<Letter>| !lexicon.contains(w) by {
                lemma_leaf_accepts_nothing(lexicon.root, w);
            }
            assert forall|w: Seq<Letter>| (#[trigger] lexicon.root.descend(w)) is Some <==> w.len()
                == 0 by {
                lemma_leaf_leads_nowhere(lexicon.root, w);
            }
        }
        lexicon
    }

    /// Adds `word`, walking the trie along its letters and extending it where
    /// an edge is missing: the trie gains a node for each beginning of the
    /// word that had none, and no other. A word with a character that stands
    /// for no tile is refused, and the lexicon stays as it was.
    pub fn insert(&mut self, word: &str) -> (r: Result<(), Error>)
        ensures
            r is Ok <==> all_tile_chars(word@),
            r is Ok ==> forall|w: Seq<Letter>|
                final(self).contains(w) <==> old(self).contains(w) || w == letters_of(word@),
            r is Ok ==> forall|w: Seq<Letter>|
                (#[trigger] final(self).root.descend(w)) is Some <==> old(self).root.descend(w)
                    is Some || (w.len() <= word@.len() && letters_of(word@).take(w.len() as int)
                    == w),
            r is Err ==> *final(self) == *old(self) && 0 <= first_invalid(word@) < word@.len() && r
                == Err::<(), Error>(Error::InvalidCharacter(word@[first_invalid(word@)])),
    {
        match parse_word(word) {
            Ok(letters) => {
                proof {
                    assert(letters@.skip(0) =~= letters@);
                }
                self.root.insert_from(&letters, 0);
                proof {
                    assert forall|w: Seq<Letter>|
                        (#[trigger] self.root.descend(w)) is Some <==> old(self).root.descend(w)
                            is Some || (w.len() <= word@.len() && letters_of(word@).take(
                            w.len() as int,
                        ) == w) by {
                        if w.len() <= word@.len() {
                            assert(letters@.subrange(0, w.len() as int) =~= letters@.take(
                                w.len() as int,
                            ));
                        }
                    }
                }
                Ok(())
            },
            Err(e) => Err(e),
        }
    }

    /// The lexicon of the given words, one word per entry: the trie accepts
    /// the words listed and no other, and has a node for each beginning of a
    /// listed word and no other. The first word with a character that stands
    /// for no tile ends the load with its error.
    pub fn from_words(words: &Vec<String>) -> (r: Result<Lexicon, Error>)
        ensures
            r is Ok <==> forall|i: int| 0 <= i < words.len() ==> all_tile_chars(#[trigger] words[i]@),
            r is Ok ==> forall|w: Seq<Letter>|
                r->Ok_0.contains(w) <==> exists|i: int|
                    0 <= i < words.len() && w == letters_of(#[trigger] words[i]@),
            r is Ok ==> forall|w: Seq<Letter>|
                (#[trigger] r->Ok_0.root.descend(w)) is Some <==> w.len() == 0 || exists|i: int|
                    0 <= i < words.len() && w.len() <= words[i]@.len() && letters_of(
                        #[trigger] words[i]@,
                    ).take(w.len() as int) == w,
            r is Err ==> exists|i: int|
                0 <= i < words.len() && !all_tile_chars(#[trigger] words[i]@) && (forall|j: int|
                    0 <= j < i ==> all_tile_chars(#[trigger] words[j]@)) && r->Err_0
                    == Error::InvalidCharacter(words[i]@[first_invalid(words[i]@)]),
    {
        let mut lexicon = Lexicon::new();
        let mut i: usize = 0;
        while i < words.len()
            invariant
                i <= words.len(),
                forall|j: int| 0 <= j < i ==> all_tile_chars(#[trigger] words[j]@),
                forall|w: Seq<Letter>|
                    lexicon.contains(w) <==> exists|j: int|
                        0 <= j < i && w == letters_of(#[trigger] words[j]@),
                forall|w: Seq<Letter>|
                    (#[trigger] lexicon.root.descend(w)) is Some <==> begins_one_of(
                        words@,
                        i as int,
                        w,
                    ),
            decreases words.len() - i,
        {
            let ghost before = lexicon;
            match lexicon.insert(words[i].as_str()) {
                Ok(()) => {
                    proof {
                        lemma_nodes_after_insert(before, lexicon, words@, i as int);
                        assert forall|w: Seq<Letter>| lexicon.contains(w) <==> exists|j: int|
                            0 <= j < i + 1 && w == letters_of(#[trigger] words[j]@) by {
                            if lexicon.contains(w) {
                                if before.contains(w) {
                                    let j = choose|j: int|
                                        0 <= j < i && w == letters_of(#[trigger] words[j]@);
                                    assert(0 <= j < i + 1 && w == letters_of(words[j]@));
                                } else {
                                    assert(w == letters_of(words[i as int]@));
                                }
                            }
                            if exists|j: int|
                                0 <= j < i + 1 && w == letters_of(#[trigger] words[j]@) {
                                let j = choose|j: int|
                                    0 <= j < i + 1 && w == letters_of(#[trigger] words[j]@);
                                if j < i {
                                    assert(before.contains(w));
                                }
                            }
                        }
                    }
                },
                Err(e) => {
                    return Err(e);
                },
            }
            i = i + 1;
        }
        Ok(lexicon)
    }

    /// The lexicon of the words of `text`, one word per line: the trie
    /// accepts the lines and no other word, and has a node for each
    /// beginning of a line and no other. The first line with a character
    /// that stands for no tile ends the load with its error.
    pub fn from_text(text: &str) -> (r: Result<Lexicon, Error>)
        ensures
            r is Ok <==> forall|i: int|
                0 <= i < text_lines(text@).len() ==> all_tile_chars(#[trigger] text_lines(text@)[i]),
            r is Ok ==> forall|w: Seq<Letter>|
                r->Ok_0.contains(w) <==> exists|i: int|
                    0 <= i < text_lines(text@).len() && w == letters_of(
                        #[trigger] text_lines(text@)[i],
                    ),
            r is Ok ==> forall|w: Seq<Letter>|
                (#[trigger] r->Ok_0.root.descend(w)) is Some <==> w.len() == 0 || exists|i: int|
                    0 <= i < text_lines(text@).len() && w.len() <= text_lines(text@)[i].len()
                        && letters_of(#[trigger] text_lines(text@)[i]).take(w.len() as int) == w,
            r is Err ==> exists|i: int|
                0 <= i < text_lines(text@).len() && !all_tile_chars(#[trigger] text_lines(text@)[i])
                    && (forall|j: int|
                    0 <= j < i ==> all_tile_chars(#[trigger] text_lines(text@)[j])) && r->Err_0
                    == Error::InvalidCharacter(
                    text_lines(text@)[i][first_invalid(text_lines(text@)[i])],
                ),
    {
        let lines = split_lines(text);
        let ghost wanted = text_lines(text@);
        proof {
            assert(line_texts(lines@) == wanted);
            assert forall|i: int| 0 <= i < lines.len() implies #[trigger] lines[i]@ == wanted[i] by {
                assert(line_texts(lines@)[i] == lines[i]@);
            }
        }
        let r = Lexicon::from_words(&lines);
        proof {
            if r is Ok {
                assert forall|i: int| 0 <= i < wanted.len() implies all_tile_chars(
                    #[trigger] wanted[i],
                ) by {
                    assert(all_tile_chars(lines[i]@));
                }
                assert forall|w: Seq<Letter>|
                    (#[trigger] r->Ok_0.root.descend(w)) is Some <==> w.len() == 0 || exists|i: int|
                        0 <= i < wanted.len() && w.len() <= wanted[i].len() && letters_of(
                            #[trigger] wanted[i],
                        ).take(w.len() as int) == w by {
                    if r->Ok_0.root.descend(w) is Some && w.len() > 0 {
                        let i = choose|i: int|
                            0 <= i < lines.len() && w.len() <= lines[i]@.len() && letters_of(
                                #[trigger] lines[i]@,
                            ).take(w.len() as int) == w;
                        assert(letters_of(wanted[i]).take(w.len() as int) == w);
                    }
                    if exists|i: int|
                        0 <= i < wanted.len() && w.len() <= wanted[i].len() && letters_of(
                            #[trigger] wanted[i],
                        ).take(w.len() as int) == w {
                        let i = choose|i: int|
                            0 <= i < wanted.len() && w.len() <= wanted[i].len() && letters_of(
                                #[trigger] wanted[i],
                            ).take(w.len() as int) == w;
                        assert(letters_of(lines[i]@).take(w.len() as int) == w);
                    }
                }
                assert forall|w: Seq<Letter>| r->Ok_0.contains(w) <==> exists|i: int|
                    0 <= i < wanted.len() && w == letters_of(#[trigger] wanted[i]) by {
                    if r->Ok_0.contains(w) {
                        let i = choose|i: int|
                            0 <= i < lines.len() && w == letters_of(#[trigger] lines[i]@);
                        assert(w == letters_of(wanted[i]));
                    }
                    if exists|i: int| 0 <= i < wanted.len() && w == letters_of(#[trigger] wanted[i]) {
                        let i = choose|i: int|
                            0 <= i < wanted.len() && w == letters_of(#[trigger] wanted[i]);
                        assert(w == letters_of(lines[i]@));
                    }
                }
            } else {
                let i = choose|i: int|
                    0 <= i < lines.len() && !all_tile_chars(#[trigger] lines[i]@) && (forall|j: int|
                        0 <= j < i ==> all_tile_chars(#[trigger] lines[j]@)) && r->Err_0
                        == Error::InvalidCharacter(lines[i]@[first_invalid(lines[i]@)]);
                assert(!all_tile_chars(wanted[i]));
                assert forall|j: int| 0 <= j < i implies all_tile_chars(#[trigger] wanted[j]) by {
                    assert(all_tile_chars(lines[j]@));
                }
            }
        }
        r
    }
}

} // verus!
