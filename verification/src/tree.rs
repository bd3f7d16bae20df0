use std::collections::HashMap;
use vstd::prelude::*;
use crate::lexicon::{lemma_prefix_by_head, starts};

verus! {

broadcast use vstd::std_specs::hash::group_hash_axioms;

/// A node of a trie over characters. Edges are keyed by the scalar value of
/// their character.
#[derive(Debug)]
pub struct Node {
    pub edges: HashMap<u32, Node>,
    pub is_terminal: bool,
}

impl Node {
    /// The node reached from this one by following `word` character by
    /// character, if every edge on the way exists.
    pub open spec fn descend(self, word: Seq<char>) -> Option<Node>
        decreases word.len(),
    {
        if word.len() == 0 {
            Some(self)
        } else if self.edges@.contains_key(word[0] as u32) {
            self.edges@[word[0] as u32].descend(word.skip(1))
        } else {
            None
        }
    }

    /// Whether `word`, read from this node, ends on a terminal node.
    pub open spec fn accepts(self, word: Seq<char>) -> bool {
        match self.descend(word) {
            Some(node) => node.is_terminal,
            None => false,
        }
    }

    /// A node without edges.
    pub fn new(is_terminal: bool) -> (node: Node)
        ensures
            node.is_terminal == is_terminal,
            node.edges@ == Map::<u32, Node>::empty(),
    {
        Node { edges: HashMap::new(), is_terminal }
    }

    pub fn contains_edge(&self, letter: &char) -> (b: bool)
        ensures
            b == self.edges@.contains_key(*letter as u32),
    {
        let key = *letter as u32;
        self.edges.contains_key(&key)
    }

    /// Sets the edge of `letter` to lead to `target`, in place of the edge it
    /// had, if any.
    pub fn insert_edge(&mut self, letter: char, target: Node)
        ensures
            final(self).edges@ == old(self).edges@.insert(letter as u32, target),
            final(self).is_terminal == old(self).is_terminal,
    {
        self.edges.insert(letter as u32, target);
    }

    pub fn get_node(&self, letter: &char) -> (r: Option<&Node>)
        ensures
            r.is_some() == self.edges@.contains_key(*letter as u32),
            r.is_some() ==> *r.unwrap() == self.edges@[*letter as u32],
    {
        let key = *letter as u32;
        self.edges.get(&key)
    }

    /// Adds `word` below this node: walks or extends the trie along its
    /// characters and marks the node they lead to as terminal. The trie
    /// gains a node for each beginning of the word that had none, and no
    /// other.
    pub fn add_word(&mut self, word: &str)
        ensures
            forall|w: Seq<char>| final(self).accepts(w) <==> old(self).accepts(w) || w == word@,
            forall|w: Seq<char>|
                (#[trigger] final(self).descend(w)) is Some <==> old(self).descend(w) is Some || (
                w.len() <= word@.len() && word@.take(w.len() as int) == w),
    {
        let mut characters: Vec<char> = Vec::new();
        for c in it: word.chars()
            invariant
                it.seq() == word@,
                characters@ == word@.take(it.index() as int),
        {
            characters.push(c);
            proof {
                assert(characters@ =~= word@.take(it.index() + 1));
            }
        }
        proof {
            assert(characters@ =~= word@);
            assert(characters@.skip(0) =~= characters@);
        }
        self.insert_from(&characters, 0);
        proof {
            assert forall|w: Seq<char>|
                (#[trigger] self.descend(w)) is Some <==> old(self).descend(w) is Some || (w.len()
                    <= word@.len() && word@.take(w.len() as int) == w) by {
                if w.len() <= word@.len() {
                    assert(characters@.subrange(0, w.len() as int) =~= word@.take(w.len() as int));
                }
            }
        }
    }

    /// Adds the characters of `word` from position `from` on below this node
    /// and marks the node they lead to as terminal.
    fn insert_from(&mut self, word: &Vec<char>, from: usize)
        requires
            from <= word.len(),
        ensures
            forall|w: Seq<char>|
                final(self).accepts(w) <==> old(self).accepts(w) || w == word@.skip(from as int),
            forall|w: Seq<char>|
                (#[trigger] final(self).descend(w)) is Some <==> old(self).descend(w) is Some || (
                w.len() <= word@.len() - from && word@.subrange(from as int, from + w.len()) == w),
        decreases word.len() - from,
    {
        let ghost suffix = word@.skip(from as int);
        if from == word.len() {
            self.is_terminal = true;
            proof {
                assert forall|w: Seq<char>|
                    (#[trigger] self.descend(w)) is Some <==> old(self).descend(w) is Some || (
                    w.len() <= word@.len() - from && word@.subrange(from as int, from + w.len())
                        == w) by {
                    if w.len() == 0 {
                        assert(self.descend(w) == Some(*self));
                        assert(old(self).descend(w) == Some(*old(self)));
                    } else {
                        assert(self.edges@ == old(self).edges@);
                        assert(self.descend(w) == old(self).descend(w));
                    }
                }
                assert forall|w: Seq<char>| self.accepts(w) <==> old(self).accepts(w) || w
                    == suffix by {
                    if w.len() == 0 {
                        assert(w =~= suffix);
                        assert(self.descend(w) == Some(*self));
                    } else {
                        assert(self.edges@ == old(self).edges@);
                        assert(self.descend(w) == old(self).descend(w));
                    }
                }
            }
        } else {
            let letter = word[from];
            let key = letter as u32;
            let had = self.edges.contains_key(&key);
            let mut child = match self.edges.remove(&key) {
                Some(child) => child,
                None => Node::new(false),
            };
            let ghost before = child;
            child.insert_from(word, from + 1);
            let ghost after = child;
            self.insert_edge(letter, child);
            proof {
                let rest = word@.skip(from + 1);
                assert(suffix.len() > 0 && suffix[0] == letter);
                assert(suffix.skip(1) =~= rest);
                assert(self.edges@ =~= old(self).edges@.insert(key, after));
                assert forall|w: Seq<char>|
                    (#[trigger] self.descend(w)) is Some <==> old(self).descend(w) is Some || (
                    w.len() <= word@.len() - from && word@.subrange(from as int, from + w.len())
                        == w) by {
                    if w.len() <= word@.len() - from {
                        assert(word@.subrange(from as int, from + w.len()) =~= suffix.take(
                            w.len() as int,
                        ));
                    }
                    if w.len() == 0 {
                        assert(self.descend(w) == Some(*self));
                        assert(old(self).descend(w) == Some(*old(self)));
                        assert(suffix.take(0) =~= w);
                    } else if w[0] == letter {
                        let tail = w.skip(1);
                        assert(self.descend(w) == after.descend(tail));
                        assert(after.descend(tail) is Some <==> before.descend(tail) is Some || (
                        tail.len() <= word@.len() - (from + 1) && word@.subrange(
                            from + 1,
                            from + 1 + tail.len(),
                        ) == tail));
                        if tail.len() <= word@.len() - (from + 1) {
                            assert(word@.subrange(from + 1, from + 1 + tail.len()) =~= rest.take(
                                tail.len() as int,
                            ));
                        }
                        if had {
                            assert(old(self).edges@[key] == before);
                            assert(old(self).descend(w) == before.descend(tail));
                        } else {
                            lemma_leaf_leads_nowhere(before, tail);
                            assert(old(self).descend(w) is None);
                            if tail.len() == 0 {
                                assert(rest.take(0) =~= tail);
                            }
                        }
                        lemma_prefix_by_head(w, suffix);
                        assert(starts(w, suffix) <==> starts(tail, rest));
                        assert(starts(tail, rest) <==> (tail.len() <= word@.len() - (from + 1)
                            && word@.subrange(from + 1, from + 1 + tail.len()) == tail));
                        assert(starts(w, suffix) <==> (w.len() <= word@.len() - from
                            && word@.subrange(from as int, from + w.len()) == w));
                    } else {
                        lemma_distinct_keys(w[0], letter);
                        assert(self.edges@.contains_key(w[0] as u32) == old(self).edges@.contains_key(
                            w[0] as u32,
                        ));
                        if self.edges@.contains_key(w[0] as u32) {
                            assert(self.edges@[w[0] as u32] == old(self).edges@[w[0] as u32]);
                        }
                        lemma_prefix_by_head(w, suffix);
                        assert(!starts(w, suffix));
                        assert(starts(w, suffix) <==> (w.len() <= word@.len() - from
                            && word@.subrange(from as int, from + w.len()) == w));
                        assert(self.descend(w) == old(self).descend(w));
                    }
                }
                assert forall|w: Seq<char>| self.accepts(w) <==> old(self).accepts(w) || w
                    == suffix by {
                    if w.len() == 0 {
                        assert(self.descend(w) == Some(*self));
                        assert(old(self).descend(w) == Some(*old(self)));
                    } else if w[0] == letter {
                        assert(self.descend(w) == after.descend(w.skip(1)));
                        assert(after.accepts(w.skip(1)) <==> before.accepts(w.skip(1)) || w.skip(1)
                            == rest);
                        if had {
                            assert(old(self).edges@[key] == before);
                            assert(old(self).descend(w) == before.descend(w.skip(1)));
                        } else {
                            lemma_leaf_accepts_nothing(before, w.skip(1));
                            assert(old(self).descend(w) is None);
                        }
                        if w.skip(1) == rest {
                            assert(w =~= seq![w[0]] + w.skip(1));
                            assert(suffix =~= seq![suffix[0]] + suffix.skip(1));
                        }
                    } else {
                        lemma_distinct_keys(w[0], letter);
                        assert(self.edges@.contains_key(w[0] as u32) == old(self).edges@.contains_key(
                            w[0] as u32,
                        ));
                        if self.edges@.contains_key(w[0] as u32) {
                            assert(self.edges@[w[0] as u32] == old(self).edges@[w[0] as u32]);
                        }
                    }
                }
            }
        }
    }

    /// The node behind the edge of `letter`, to change in place: what the
    /// caller leaves in it is what the edge leads to afterwards.
    pub fn get_node_mut(&mut self, letter: &char) -> (r: Option<&mut Node>)
        ensures
            r.is_some() == old(self).edges@.contains_key(*letter as u32),
            final(self).is_terminal == old(self).is_terminal,
            match r {
                Some(node) => *node == old(self).edges@[*letter as u32] && final(self).edges@ == old(
                    self,
                ).edges@.insert(*letter as u32, *final(node)),
                None => final(self).edges@ == old(self).edges@,
            },
    {
        edge_mut(&mut self.edges, *letter as u32)
    }
}

/// A node without edges and without the terminal mark accepts no word.
pub proof fn lemma_leaf_accepts_nothing(node: Node, w: Seq<char>)
    requires
        !node.is_terminal,
        node.edges@ == Map::<u32, Node>::empty(),
    ensures
        !node.accepts(w),
{
}

/// From a node without edges only the empty word leads to a node.
pub proof fn lemma_leaf_leads_nowhere(node: Node, w: Seq<char>)
    requires
        node.edges@ == Map::<u32, Node>::empty(),
    ensures
        node.descend(w) is Some <==> w.len() == 0,
{
}

/// Two characters with one scalar value are one character.
pub proof fn lemma_distinct_keys(a: char, b: char)
    requires
        a != b,
    ensures
        a as u32 != b as u32,
{
}

/// `HashMap::get_mut`: the standard library hands out the value stored under
/// the key, to change in place, or nothing when the key is absent; no other
/// entry is touched.
#[verifier::external_body]
fn edge_mut(edges: &mut HashMap<u32, Node>, key: u32) -> (r: Option<&mut Node>)
    ensures
        r.is_some() == old(edges)@.contains_key(key),
        match r {
            Some(node) => *node == old(edges)@[key] && final(edges)@ == old(edges)@.insert(
                key,
                *final(node),
            ),
            None => final(edges)@ == old(edges)@,
        },
{
    edges.get_mut(&key)
}

} // verus!
