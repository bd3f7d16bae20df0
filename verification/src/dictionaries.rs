use vstd::prelude::*;
use vstd::string::StringExecFns;
use crate::text::{line_texts, split_lines, text_lines};
use crate::tree::Node;

verus! {

/// A language and the word lists on offer for it.
pub struct Language<'a> {
    pub name: &'a str,
    pub dictionaries: Vec<Dictionary>,
}

/// A word list: its name and the file that holds it.
pub struct Dictionary {
    pub name: String,
    pub path: String,
}

/// The file of the word list `dictionary` of `language`.
pub open spec fn dictionary_path(language: Seq<char>, dictionary: Seq<char>) -> Seq<char> {
    "src/dictionaries/"@ + language + "/"@ + dictionary + ".txt"@
}

/// What a word list is described as.
pub open spec fn dictionary_text(name: Seq<char>, path: Seq<char>) -> Seq<char> {
    "name: "@ + name + ", path: "@ + path
}

/// The descriptions of the first `k` word lists, separated by commas.
pub open spec fn dictionaries_text(dictionaries: Seq<Dictionary>, k: int) -> Seq<char>
    decreases k,
{
    if k <= 0 {
        Seq::<char>::empty()
    } else if k == 1 {
        dictionary_text(dictionaries[0].name@, dictionaries[0].path@)
    } else {
        dictionaries_text(dictionaries, k - 1) + ", "@ + dictionary_text(
            dictionaries[k - 1].name@,
            dictionaries[k - 1].path@,
        )
    }
}

impl Dictionary {
    pub fn new(language: &str, dictionary: &str) -> (d: Dictionary)
        ensures
            d.name@ == dictionary@,
            d.path@ == dictionary_path(language@, dictionary@),
    {
        let mut path = String::from_str("src/dictionaries/");
        path.append(language);
        path.append("/");
        path.append(dictionary);
        path.append(".txt");
        Dictionary { name: String::from_str(dictionary), path }
    }

    /// The word list in words: its name and its path.
    pub fn describe(&self) -> (text: String)
        ensures
            text@ == dictionary_text(self.name@, self.path@),
    {
        let mut text = String::from_str("name: ");
        text.append(self.name.as_str());
        text.append(", path: ");
        text.append(self.path.as_str());
        text
    }
}

impl<'a> Language<'a> {
    pub fn new(name: &'a str, dictionaries: Vec<&'a str>) -> (language: Language<'a>)
        ensures
            language.name@ == name@,
            language.dictionaries.len() == dictionaries.len(),
            forall|i: int|
                0 <= i < dictionaries.len() ==> (#[trigger] language.dictionaries[i]).name@
                    == dictionaries[i]@ && language.dictionaries[i].path@ == dictionary_path(
                    name@,
                    dictionaries[i]@,
                ),
    {
        let mut lists: Vec<Dictionary> = Vec::new();
        let mut i: usize = 0;
        while i < dictionaries.len()
            invariant
                i <= dictionaries.len(),
                lists.len() == i,
                forall|j: int|
                    0 <= j < i ==> (#[trigger] lists[j]).name@ == dictionaries[j]@ && lists[j].path@
                        == dictionary_path(name@, dictionaries[j]@),
            decreases dictionaries.len() - i,
        {
            lists.push(Dictionary::new(name, dictionaries[i]));
            i = i + 1;
        }
        Language { name, dictionaries: lists }
    }

    /// The language in words: its name and its word lists.
    pub fn describe(&self) -> (text: String)
        ensures
            text@ == "name: "@ + self.name@ + ", dictionaries: ["@ + dictionaries_text(
                self.dictionaries@,
                self.dictionaries.len() as int,
            ) + "]"@,
    {
        let mut text = String::from_str("name: ");
        text.append(self.name);
        text.append(", dictionaries: [");
        let ghost head = text@;
        let mut i: usize = 0;
        proof {
            assert(text@ =~= head + dictionaries_text(self.dictionaries@, 0));
        }
        while i < self.dictionaries.len()
            invariant
                i <= self.dictionaries.len(),
                text@ == head + dictionaries_text(self.dictionaries@, i as int),
            decreases self.dictionaries.len() - i,
        {
            let ghost done = dictionaries_text(self.dictionaries@, i as int);
            if i > 0 {
                text.append(", ");
            }
            let one = self.dictionaries[i].describe();
            text.append(one.as_str());
            proof {
                if i > 0 {
                    assert(text@ =~= head + (done + ", "@ + one@));
                } else {
                    assert(done =~= Seq::<char>::empty());
                    assert(text@ =~= head + one@);
                }
            }
            i = i + 1;
        }
        text.append("]");
        text
    }
}

/// The mark before the name of language number `index` of `count` in the
/// listing.
pub open spec fn language_mark(index: int, count: int) -> Seq<char> {
    if index == 0 {
        "┏━ "@
    } else if count - index == 1 {
        "┗━ "@
    } else {
        "┣━ "@
    }
}

/// Whether language number `index` of `count` closes the listing.
pub open spec fn closes_listing(index: int, count: int) -> bool {
    index != 0 && count - index == 1
}

/// The mark before the name of a word list with `remaining` lists still to
/// show, itself included, under a language that closes the listing or not.
pub open spec fn dictionary_mark(remaining: int, closing: bool) -> Seq<char> {
    if remaining == 1 {
        if closing {
            "   ┗━ "@
        } else {
            "┃  ┗━ "@
        }
    } else {
        if closing {
            "   ┣━ "@
        } else {
            "┃  ┣━ "@
        }
    }
}

/// The line of the listing for word list number `index`.
pub open spec fn dictionary_line(dictionaries: Seq<Dictionary>, closing: bool, index: int) -> Seq<
    char,
> {
    dictionary_mark(dictionaries.len() - index, closing) + dictionaries[index].name@ + " ("@
        + dictionaries[index].path@ + ")"@
}

/// The lines of the listing for the first `k` word lists of a language.
pub open spec fn dictionary_lines(dictionaries: Seq<Dictionary>, closing: bool, k: int) -> Seq<
    Seq<char>,
>
    decreases k,
{
    if k <= 0 {
        Seq::<Seq<char>>::empty()
    } else {
        dictionary_lines(dictionaries, closing, k - 1).push(
            dictionary_line(dictionaries, closing, k - 1),
        )
    }
}

/// The lines of the listing for the first `k` languages: for each its name,
/// then its word lists with their paths.
pub open spec fn listing_lines(languages: Seq<Language>, k: int) -> Seq<Seq<char>>
    decreases k,
{
    if k <= 0 {
        Seq::<Seq<char>>::empty()
    } else {
        let language = languages[k - 1];
        listing_lines(languages, k - 1).push(
            language_mark(k - 1, languages.len() as int) + language.name@,
        ) + dictionary_lines(
            language.dictionaries@,
            closes_listing(k - 1, languages.len() as int),
            language.dictionaries.len() as int,
        )
    }
}

/// The text of each string of a list.
pub open spec fn texts(lines: Seq<String>) -> Seq<Seq<char>> {
    Seq::new(lines.len(), |i: int| lines[i]@)
}

/// The languages on offer with their word lists.
pub fn available_languages() -> (languages: Vec<Language<'static>>)
    ensures
        languages.len() == 2,
        languages[0].name@ == "English"@,
        languages[0].dictionaries.len() == 1,
        languages[0].dictionaries[0].name@ == "Example"@,
        languages[0].dictionaries[0].path@ == dictionary_path("English"@, "Example"@),
        languages[1].name@ == "French"@,
        languages[1].dictionaries.len() == 1,
        languages[1].dictionaries[0].name@ == "ODS 8"@,
        languages[1].dictionaries[0].path@ == dictionary_path("French"@, "ODS 8"@),
{
    let mut english_lists: Vec<&'static str> = Vec::new();
    english_lists.push("Example");
    let mut french_lists: Vec<&'static str> = Vec::new();
    french_lists.push("ODS 8");
    let english = Language::new("English", english_lists);
    let french = Language::new("French", french_lists);
    let mut languages: Vec<Language<'static>> = Vec::new();
    languages.push(english);
    languages.push(french);
    languages
}

/// The listing of the languages and their word lists, line by line, drawn
/// as a tree.
pub fn listing(languages: &Vec<Language>) -> (lines: Vec<String>)
    ensures
        texts(lines@) == listing_lines(languages@, languages.len() as int),
{
    let mut lines: Vec<String> = Vec::new();
    let count = languages.len();
    let mut index: usize = 0;
    proof {
        assert(texts(lines@) =~= listing_lines(languages@, 0));
    }
    while index < count
        invariant
            index <= count,
            count == languages.len(),
            texts(lines@) == listing_lines(languages@, index as int),
        decreases count - index,
    {
        let language = &languages[index];
        let closing = index != 0 && count - index == 1;
        let mark = if index == 0 {
            "┏━ "
        } else if count - index == 1 {
            "┗━ "
        } else {
            "┣━ "
        };
        let mut line = String::from_str(mark);
        line.append(language.name);
        let ghost above = texts(lines@);
        lines.push(line);
        let ghost head = above.push(language_mark(index as int, count as int) + language.name@);
        proof {
            assert(texts(lines@) =~= head + dictionary_lines(language.dictionaries@, closing, 0));
        }
        let total = language.dictionaries.len();
        let mut k: usize = 0;
        while k < total
            invariant
                k <= total,
                total == language.dictionaries.len(),
                texts(lines@) == head + dictionary_lines(language.dictionaries@, closing, k as int),
            decreases total - k,
        {
            let dictionary = &language.dictionaries[k];
            let mark = if total - k == 1 {
                if closing {
                    "   ┗━ "
                } else {
                    "┃  ┗━ "
                }
            } else {
                if closing {
                    "   ┣━ "
                } else {
                    "┃  ┣━ "
                }
            };
            let mut line = String::from_str(mark);
            line.append(dictionary.name.as_str());
            line.append(" (");
            line.append(dictionary.path.as_str());
            line.append(")");
            let ghost shown = texts(lines@);
            lines.push(line);
            proof {
                assert(line@ == dictionary_line(language.dictionaries@, closing, k as int));
                assert(texts(lines@) =~= shown.push(line@));
                assert(shown.push(line@) =~= head + dictionary_lines(
                    language.dictionaries@,
                    closing,
                    k + 1,
                ));
            }
            k = k + 1;
        }
        index = index + 1;
    }
    lines
}

/// Whether `w` is empty or begins one of the first `k` lines.
pub open spec fn begins_a_line(lines: Seq<String>, k: int, w: Seq<char>) -> bool {
    w.len() == 0 || exists|i: int|
        0 <= i < k && w.len() <= lines[i]@.len() && (#[trigger] lines[i]@).take(w.len() as int) == w
}

/// Where a trie has a node for the beginnings of the first `k` lines and
/// gains a node for each beginning of the next line, it has a node for the
/// beginnings of the first `k + 1` lines.
pub proof fn lemma_nodes_after_line(before: Node, after: Node, lines: Seq<String>, k: int)
    requires
        0 <= k < lines.len(),
        forall|w: Seq<char>| (#[trigger] before.descend(w)) is Some <==> begins_a_line(lines, k, w),
        forall|w: Seq<char>|
            (#[trigger] after.descend(w)) is Some <==> before.descend(w) is Some || (w.len()
                <= lines[k]@.len() && lines[k]@.take(w.len() as int) == w),
    ensures
        forall|w: Seq<char>|
            (#[trigger] after.descend(w)) is Some <==> begins_a_line(lines, k + 1, w),
{
    assert forall|w: Seq<char>| (#[trigger] after.descend(w)) is Some <==> begins_a_line(
        lines,
        k + 1,
        w,
    ) by {
        assert(before.descend(w) is Some <==> begins_a_line(lines, k, w));
        if begins_a_line(lines, k, w) && w.len() > 0 {
            let j = choose|j: int|
                0 <= j < k && w.len() <= lines[j]@.len() && (#[trigger] lines[j]@).take(
                    w.len() as int,
                ) == w;
            assert(0 <= j < k + 1 && lines[j]@.take(w.len() as int) == w);
        }
        if begins_a_line(lines, k + 1, w) && w.len() > 0 {
            let j = choose|j: int|
                0 <= j < k + 1 && w.len() <= lines[j]@.len() && (#[trigger] lines[j]@).take(
                    w.len() as int,
                ) == w;
            if j < k {
                assert(begins_a_line(lines, k, w));
            }
        }
    }
}

/// The trie of the given words, one word per entry: it accepts the words
/// listed and no other, and has a node for each beginning of a listed word
/// and no other.
pub fn build_tree(lines: &Vec<String>) -> (tree: Node)
    ensures
        forall|w: Seq<char>|
            tree.accepts(w) <==> exists|i: int| 0 <= i < lines.len() && w == #[trigger] lines[i]@,
        forall|w: Seq<char>|
            (#[trigger] tree.descend(w)) is Some <==> w.len() == 0 || exists|i: int|
                0 <= i < lines.len() && w.len() <= lines[i]@.len() && (#[trigger] lines[i]@).take(
                    w.len() as int,
                ) == w,
{
    let mut tree = Node::new(false);
    proof {
        assert forall|w: Seq<char>| !tree.accepts(w) by {
            crate::tree::lemma_leaf_accepts_nothing(tree, w);
        }
        assert forall|w: Seq<char>| (#[trigger] tree.descend(w)) is Some <==> begins_a_line(
            lines@,
            0,
            w,
        ) by {
            crate::tree::lemma_leaf_leads_nowhere(tree, w);
        }
    }
    let mut index: usize = 0;
    while index < lines.len()
        invariant
            index <= lines.len(),
            forall|w: Seq<char>|
                tree.accepts(w) <==> exists|i: int| 0 <= i < index && w == #[trigger] lines[i]@,
            forall|w: Seq<char>|
                (#[trigger] tree.descend(w)) is Some <==> begins_a_line(lines@, index as int, w),
        decreases lines.len() - index,
    {
        let ghost before = tree;
        tree.add_word(lines[index].as_str());
        proof {
            lemma_nodes_after_line(before, tree, lines@, index as int);
            assert forall|w: Seq<char>| tree.accepts(w) <==> exists|i: int|
                0 <= i < index + 1 && w == #[trigger] lines[i]@ by {
                if tree.accepts(w) {
                    if before.accepts(w) {
                        let i = choose|i: int| 0 <= i < index && w == #[trigger] lines[i]@;
                        assert(0 <= i < index + 1 && w == lines[i]@);
                    } else {
                        assert(w == lines[index as int]@);
                    }
                }
                if exists|i: int| 0 <= i < index + 1 && w == #[trigger] lines[i]@ {
                    let i = choose|i: int| 0 <= i < index + 1 && w == #[trigger] lines[i]@;
                    if i < index {
                        assert(before.accepts(w));
                    }
                }
            }
        }
        index = index + 1;
    }
    tree
}

/// The trie of the words of `text`, one word per line: it accepts the lines
/// and no other word, and has a node for each beginning of a line and no
/// other.
pub fn tree_from_text(text: &str) -> (tree: Node)
    ensures
        forall|w: Seq<char>|
            tree.accepts(w) <==> exists|i: int|
                0 <= i < text_lines(text@).len() && w == #[trigger] text_lines(text@)[i],
        forall|w: Seq<char>|
            (#[trigger] tree.descend(w)) is Some <==> w.len() == 0 || exists|i: int|
                0 <= i < text_lines(text@).len() && w.len() <= text_lines(text@)[i].len() && (
                #[trigger] text_lines(text@)[i]).take(w.len() as int) == w,
{
    let lines = split_lines(text);
    let ghost wanted = text_lines(text@);
    let tree = build_tree(&lines);
    proof {
        assert forall|i: int| 0 <= i < lines.len() implies #[trigger] lines[i]@ == wanted[i] by {
            assert(line_texts(lines@)[i] == lines[i]@);
        }
        assert forall|w: Seq<char>|
            (#[trigger] tree.descend(w)) is Some <==> w.len() == 0 || exists|i: int|
                0 <= i < wanted.len() && w.len() <= wanted[i].len() && (#[trigger] wanted[i]).take(
                    w.len() as int,
                ) == w by {
            if tree.descend(w) is Some && w.len() > 0 {
                let i = choose|i: int|
                    0 <= i < lines.len() && w.len() <= lines[i]@.len() && (#[trigger] lines[i]@).take(
                        w.len() as int,
                    ) == w;
                assert(wanted[i].take(w.len() as int) == w);
            }
            if exists|i: int|
                0 <= i < wanted.len() && w.len() <= wanted[i].len() && (#[trigger] wanted[i]).take(
                    w.len() as int,
                ) == w {
                let i = choose|i: int|
                    0 <= i < wanted.len() && w.len() <= wanted[i].len() && (
                    #[trigger] wanted[i]).take(w.len() as int) == w;
                assert(lines[i]@.take(w.len() as int) == w);
            }
        }
        assert forall|w: Seq<char>| tree.accepts(w) <==> exists|i: int|
            0 <= i < wanted.len() && w == #[trigger] wanted[i] by {
            if tree.accepts(w) {
                let i = choose|i: int| 0 <= i < lines.len() && w == #[trigger] lines[i]@;
                assert(w == wanted[i]);
            }
            if exists|i: int| 0 <= i < wanted.len() && w == #[trigger] wanted[i] {
                let i = choose|i: int| 0 <= i < wanted.len() && w == #[trigger] wanted[i];
                assert(w == lines[i]@);
            }
        }
    }
    tree
}

} // verus!
