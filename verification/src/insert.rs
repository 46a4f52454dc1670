//! Insertion: the walk that adds a word to a node, making the nodes that
//! are missing and keeping the marks of the nodes it passes.

use crate::node::{get_trie_node, keyed_at, TrieNode};
use vstd::prelude::*;

verus! {

impl TrieNode {
    /// The children of `next` are those of `self`, but for the one at
    /// position `i`: it stands in the place of another, or, where `fresh`
    /// holds, between those that `self` has.
    pub(crate) open spec fn regrown(&self, next: &TrieNode, i: int, fresh: bool) -> bool {
        let was = self.children@;
        let now = next.children@;
        if fresh {
            &&& 0 <= i <= was.len()
            &&& now.len() == was.len() + 1
            &&& forall|j: int| 0 <= j < i ==> now[j] == was[j]
            &&& forall|j: int| i <= j < was.len() ==> now[j + 1] == was[j]
        } else {
            &&& 0 <= i < was.len()
            &&& now.len() == was.len()
            &&& forall|j: int| 0 <= j < was.len() && j != i ==> now[j] == was[j]
        }
    }

    /// A change to one child leaves the children reached by other
    /// characters as they were.
    pub(crate) proof fn lemma_other_children(&self, next: &TrieNode, c: char, i: int, fresh: bool)
        requires
            self.wf(),
            next.wf(),
            self.regrown(next, i, fresh),
            next.child_at(c, i),
            fresh ==> !self.has_child(c),
            !fresh ==> self.child_at(c, i),
        ensures
            forall|d: char|
                d != c ==> self.has_child(d) == next.has_child(d) && (self.has_child(d)
                    ==> self.child(d) == next.child(d)),
    {
        assert forall|d: char| d != c implies self.has_child(d) == next.has_child(d) && (
        self.has_child(d) ==> self.child(d) == next.child(d)) by {
            if self.has_child(d) {
                let j = choose|j: int| keyed_at(self.children@, d, j);
                let k = if fresh && j >= i {
                    j + 1
                } else {
                    j
                };
                assert(next.children@[k] == self.children@[j]);
                assert(next.child_at(d, k));
                next.lemma_child_is(d, k);
            }
            if next.has_child(d) {
                let k = choose|k: int| keyed_at(next.children@, d, k);
                let j = if fresh && k > i {
                    k - 1
                } else {
                    k
                };
                assert(next.children@[k] == self.children@[j]);
                assert(self.child_at(d, j));
                self.lemma_child_is(d, j);
                next.lemma_child_is(d, k);
            }
        }
    }

    /// Nodes with the same children hold the same paths of one character
    /// or more.
    pub(crate) proof fn lemma_same_children(&self, other: &TrieNode, path: Seq<char>)
        requires
            self.children@ == other.children@,
            path.len() > 0,
        ensures
            self.descend(path) == other.descend(path),
    {
    }

    /// Words of a node one of whose children has gained a word.
    ///
    /// `next` is `self` with the child reached by `c` replaced, or first put
    /// in; that child holds what it held before and `rest`.
    pub(crate) proof fn lemma_words_after_insert(
        &self,
        next: &TrieNode,
        c: char,
        i: int,
        rest: Seq<char>,
    )
        requires
            self.wf(),
            next.wf(),
            next.is_word() == self.is_word(),
            next.child_at(c, i),
            forall|d: char|
                d != c ==> self.has_child(d) == next.has_child(d) && (self.has_child(d)
                    ==> self.child(d) == next.child(d)),
            forall|w: Seq<char>|
                #[trigger] next.children@[i].has_word(w) <==> (self.has_child(c) && self.child(
                    c,
                ).has_word(w)) || w == rest,
        ensures
            forall|w: Seq<char>| next.has_word(w) <==> self.has_word(w) || w == seq![c] + rest,
    {
        let whole = seq![c] + rest;
        assert(whole.drop_first() =~= rest);
        assert forall|w: Seq<char>| next.has_word(w) <==> self.has_word(w) || w == whole by {
            assert(whole[0] == c);
            if w.len() > 0 && w[0] == c {
                let tail = w.drop_first();
                next.lemma_descend_step(w, i);
                assert(next.children@[i].has_word(tail) <==> (self.has_child(c) && self.child(
                    c,
                ).has_word(tail)) || tail == rest);
                if tail == rest {
                    assert(w =~= whole);
                }
            }
        }
    }
}

impl TrieNode {
    /// Adds the word `word[pos..]` to the words that are read from this
    /// node downwards.
    ///
    /// Missing nodes are made on the way. A node that ended a word without
    /// going on is marked as going on when its first child is made; the
    /// last node is marked as the end of a word, going on or not.
    pub(crate) fn insert_suffix(&mut self, word: &Vec<char>, pos: usize)
        requires
            old(self).wf(),
            pos <= word@.len(),
        ensures
            final(self).wf(),
            final(self).settled(),
            final(self).key_char == old(self).key_char,
            forall|w: Seq<char>|
                final(self).has_word(w) <==> old(self).has_word(w) || w == word@.skip(pos as int),
        decreases word@.len() - pos,
    {
        if pos == word.len() {
            let ghost before = *self;
            if self.children.len() == 0 {
                self.is_terminal = true;
            } else {
                self.was_terminal = true;
            }
            proof {
                assert(word@.skip(pos as int) =~= Seq::<char>::empty());
                assert forall|w: Seq<char>|
                    self.has_word(w) <==> before.has_word(w) || w == word@.skip(pos as int) by {
                    if w.len() > 0 {
                        self.lemma_same_children(&before, w);
                    } else {
                        assert(w =~= Seq::<char>::empty());
                    }
                }
            }
        } else {
            let c = word[pos];
            let ghost before = *self;
            let idx: usize = match self.find_child(c) {
                Ok(i) => i,
                Err(i) => {
                    self.children.insert(i, get_trie_node(Some(c)));
                    if self.is_terminal {
                        self.is_terminal = false;
                        self.was_terminal = true;
                    }
                    i
                },
            };
            let ghost middle = *self;
            self.children[idx].insert_suffix(word, pos + 1);
            proof {
                let i = idx as int;
                let rest = word@.skip(pos + 1);
                let fresh = !before.has_child(c);
                assert(word@.skip(pos as int) =~= seq![c] + rest);
                assert(self.child_at(c, i));
                assert(before.regrown(self, i, fresh));
                before.lemma_other_children(self, c, i, fresh);
                assert forall|w: Seq<char>| #[trigger]
                    self.children@[i].has_word(w) <==> (before.has_child(c) && before.child(
                        c,
                    ).has_word(w)) || w == rest by {
                    if fresh {
                        if w.len() > 0 {
                            middle.children@[i].lemma_leaf_paths(w);
                        }
                        assert(!middle.children@[i].has_word(w));
                    } else {
                        before.lemma_child_is(c, i);
                    }
                }
                before.lemma_words_after_insert(self, c, i, rest);
            }
        }
    }
}

} // verus!
