//! Paths through the tree: where a path leads, and that every path of a
//! well-formed tree leads on to a word.

use crate::node::{keyed_at, TrieNode};
use vstd::prelude::*;

verus! {

impl TrieNode {
    /// Following `first + second` is following `first` and, from the node
    /// reached, `second`.
    pub(crate) proof fn lemma_descend_concat(&self, first: Seq<char>, second: Seq<char>)
        ensures
            self.descend(first + second) == match self.descend(first) {
                Some(node) => node.descend(second),
                None => None,
            },
        decreases first.len(),
    {
        if first.len() == 0 {
            assert(first + second =~= second);
        } else {
            assert((first + second).drop_first() =~= first.drop_first() + second);
            assert((first + second)[0] == first[0]);
            if self.has_child(first[0]) {
                self.child(first[0]).lemma_descend_concat(first.drop_first(), second);
            }
        }
    }

    /// A path from a well-formed node leads to a well-formed node; a path
    /// of one character or more leads to a node that its last character
    /// names and from which a word can be reached.
    pub(crate) proof fn lemma_descend_wf(&self, path: Seq<char>)
        requires
            self.wf(),
            self.descend(path) is Some,
        ensures
            self.descend(path)->0.wf(),
            path.len() > 0 ==> self.descend(path)->0.settled() && self.descend(path)->0.key_char
                == Some(path.last()),
        decreases path.len(),
    {
        if path.len() > 0 {
            let i = choose|i: int| keyed_at(self.children@, path[0], i);
            let child = self.children@[i];
            let rest = path.drop_first();
            assert(child.wf());
            assert(child.settled());
            child.lemma_descend_wf(rest);
            if rest.len() > 0 {
                assert(rest.last() == path.last());
            }
        }
    }

    /// Some word is read from a well-formed node that has children or ends
    /// a word.
    pub(crate) proof fn lemma_reaches_word(&self) -> (tail: Seq<char>)
        requires
            self.wf(),
            self.settled(),
        ensures
            self.has_word(tail),
        decreases self,
    {
        if self.is_word() {
            Seq::empty()
        } else {
            let child = self.children@[0];
            assert(child.wf());
            assert(child.settled());
            let rest = child.lemma_reaches_word();
            let tail = seq![child.key_char->0] + rest;
            assert(tail.drop_first() =~= rest);
            assert(keyed_at(self.children@, tail[0], 0));
            self.lemma_descend_step(tail, 0);
            tail
        }
    }

    /// From a well-formed node a path of one character or more is in the
    /// tree exactly if some word of the tree begins with it.
    pub(crate) proof fn lemma_paths_lead_to_words(&self, path: Seq<char>)
        requires
            self.wf(),
            path.len() > 0,
        ensures
            self.has_path(path) <==> exists|w: Seq<char>|
                self.has_word(w) && path.is_prefix_of(w),
    {
        if self.has_path(path) {
            self.lemma_descend_wf(path);
            let tail = self.descend(path)->0.lemma_reaches_word();
            self.lemma_descend_concat(path, tail);
            assert((path + tail).subrange(0, path.len() as int) =~= path);
            assert(path.is_prefix_of(path + tail));
            assert(self.has_word(path + tail));
        }
        if exists|w: Seq<char>| self.has_word(w) && path.is_prefix_of(w) {
            let w = choose|w: Seq<char>| self.has_word(w) && path.is_prefix_of(w);
            let tail = w.skip(path.len() as int);
            assert(w =~= path + tail);
            self.lemma_descend_concat(path, tail);
        }
    }
}

} // verus!
