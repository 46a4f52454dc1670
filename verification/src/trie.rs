//! The prefix tree: a set of words that answers whether a word is in it,
//! whether a path is in it, and which words begin with a given prefix.

use crate::listing::{
    completed, each_after, each_before, lemma_completed_concat, lemma_completed_empty_tail,
    lemma_completed_shift, lemma_completed_single, lemma_with_empty_prefix,
    lemma_with_prefix_sorted, with_prefix,
};
use crate::node::{get_trie_node, keyed_at, TrieNode};
use crate::order::{lemma_sorted_words_is, lists, sorted_words, strictly_sorted};
use crate::text::{chars_of, join, join_words, texts};
use vstd::prelude::*;

verus! {

/// `path` is a path of the tree that holds `words`: the empty path, or the
/// beginning of one of the words.
pub open spec fn on_path(words: Set<Seq<char>>, path: Seq<char>) -> bool {
    path.len() == 0 || exists|w: Seq<char>| words.contains(w) && path.is_prefix_of(w)
}

/// The words of `words` that begin with `prefix`.
pub open spec fn beginning_with(words: Set<Seq<char>>, prefix: Seq<char>) -> Set<Seq<char>> {
    Set::new(|w: Seq<char>| words.contains(w) && prefix.is_prefix_of(w))
}

/// The words of `words` of one character or more.
pub open spec fn nonempty(words: Set<Seq<char>>) -> Set<Seq<char>> {
    Set::new(|w: Seq<char>| words.contains(w) && w.len() > 0)
}

/// A set of words, held as a tree in which words that begin alike share
/// their first nodes.
pub struct Trie {
    root: TrieNode,
}

impl View for Trie {
    type V = Set<Seq<char>>;

    /// The words that have been inserted.
    closed spec fn view(&self) -> Set<Seq<char>> {
        Set::new(|w: Seq<char>| self.root.has_word(w))
    }
}

/// Adding lists of strings adds what they stand for.
proof fn lemma_texts_concat(a: Seq<String>, b: Seq<String>)
    ensures
        texts(a + b) == texts(a) + texts(b),
{
    assert(texts(a + b) =~= texts(a) + texts(b));
}

impl Trie {
    /// The tree is well formed from the root downwards.
    pub closed spec fn wf(&self) -> bool {
        self.root.wf() && self.root.key_char is None
    }

    /// What `search` answers for `word`: with `only_inserted`, whether it
    /// is one of the words; without, whether it is a path of the tree.
    pub open spec fn spec_search(&self, word: Seq<char>, only_inserted: bool) -> bool {
        if only_inserted {
            self@.contains(word)
        } else {
            on_path(self@, word)
        }
    }

    /// What `suggest` answers for `prefix`: the words that begin with it,
    /// in ascending order, joined.
    pub open spec fn spec_suggest(&self, prefix: Seq<char>) -> Seq<char> {
        join_words(sorted_words(beginning_with(self@, prefix)))
    }

    /// What `get_string` answers: the words of one character or more, in
    /// ascending order, joined.
    pub open spec fn spec_listing(&self) -> Seq<char> {
        join_words(sorted_words(nonempty(self@)))
    }

    /// The node that `path` leads to is marked as the end of a word
    /// below which nothing goes on.
    pub closed spec fn terminal_at(&self, path: Seq<char>) -> bool {
        match self.root.descend(path) {
            Some(node) => node.is_terminal,
            None => false,
        }
    }

    /// The node that `path` leads to is marked as the end of a word below
    /// which other words go on.
    pub closed spec fn was_terminal_at(&self, path: Seq<char>) -> bool {
        match self.root.descend(path) {
            Some(node) => node.was_terminal,
            None => false,
        }
    }

    /// A tree that holds no word.
    pub fn new() -> (trie: Trie)
        ensures
            trie.wf(),
            trie@ == Set::<Seq<char>>::empty(),
    {
        let trie = Trie { root: get_trie_node(None) };
        proof {
            assert forall|w: Seq<char>| !trie.root.has_word(w) by {
                if w.len() > 0 {
                    trie.root.lemma_leaf_paths(w);
                }
            }
            assert(trie@ =~= Set::<Seq<char>>::empty());
        }
        trie
    }

    /// Adds `word` to the words of the tree.
    ///
    /// The empty word is a word like any other: it ends at the root.
    pub fn insert(&mut self, word: &str)
        requires
            old(self).wf(),
        ensures
            final(self).wf(),
            final(self)@ == old(self)@.insert(word@),
    {
        let chars = chars_of(word);
        self.root.insert_suffix(&chars, 0);
        proof {
            assert(chars@.skip(0) =~= word@);
            assert(self@ =~= old(self)@.insert(word@));
        }
    }

    /// Follows `path` from the root to the node it leads to, if the tree
    /// holds that path.
    fn find_node(&self, path: &str) -> (reached: Option<&TrieNode>)
        requires
            self.wf(),
        ensures
            match reached {
                Some(node) => self.root.descend(path@) == Some(*node),
                None => self.root.descend(path@) is None,
            },
    {
        let mut rt = &self.root;
        assert(path@.skip(0) =~= path@);
        for c in it: path.chars()
            invariant
                it.seq() == path@,
                rt.wf(),
                self.root.descend(path@) == rt.descend(path@.skip(it.index() as int)),
        {
            let ghost rest = path@.skip(it.index() as int);
            assert(rest.drop_first() =~= path@.skip(it.index() + 1));
            assert(rest[0] == c);
            match rt.find_child(c) {
                Err(_) => {
                    return None;
                },
                Ok(i) => {
                    proof {
                        rt.lemma_descend_step(rest, i as int);
                    }
                    rt = &rt.children[i];
                },
            }
        }
        assert(path@.skip(path@.len() as int) =~= Seq::<char>::empty());
        Some(rt)
    }

    /// Whether `word` is in the tree: as one of its words where
    /// `only_inserted` holds, else as a path, which every beginning of a
    /// word is.
    pub fn search(&self, word: &str, only_inserted: bool) -> (found: bool)
        requires
            self.wf(),
        ensures
            found == self.spec_search(word@, only_inserted),
    {
        proof {
            if word@.len() > 0 {
                self.root.lemma_paths_lead_to_words(word@);
                if self.root.has_path(word@) {
                    let w = choose|w: Seq<char>| self.root.has_word(w) && word@.is_prefix_of(w);
                    assert(self@.contains(w));
                }
            }
        }
        match self.find_node(word) {
            None => false,
            Some(rt) => if only_inserted {
                rt.is_terminal || rt.was_terminal
            } else {
                true
            },
        }
    }

    /// The words that are read through the children of the root, in
    /// ascending order: all words of one character or more.
    fn child_words(&self) -> (words: Vec<String>)
        requires
            self.wf(),
        ensures
            texts(words@) == sorted_words(nonempty(self@)),
    {
        let mut word_list: Vec<String> = Vec::new();
        let mut start: Vec<String> = Vec::new();
        start.push(String::new());
        let mut k: usize = 0;
        assert(texts(word_list@) =~= Seq::<Seq<char>>::empty());
        assert(texts(start@) =~= seq![Seq::<char>::empty()]);
        while k < self.root.children.len()
            invariant
                self.wf(),
                k <= self.root.children@.len(),
                texts(start@) == seq![Seq::<char>::empty()],
                texts(word_list@) == self.root.tails_through(k as nat),
            decreases self.root.children@.len() - k,
        {
            let tn = &self.root.children[k];
            let mut part = self.add_next_letter(tn, &start);
            proof {
                lemma_texts_concat(word_list@, part@);
                lemma_completed_single(Seq::empty(), tn.keyed_tails());
                lemma_with_empty_prefix(tn.keyed_tails());
            }
            word_list.append(&mut part);
            k += 1;
        }
        proof {
            self.lemma_listing();
        }
        word_list
    }

    /// All words of one character or more, in ascending order, with a
    /// comma and a space between neighbours.
    pub fn get_string(&self) -> (listed: String)
        requires
            self.wf(),
        ensures
            listed@ == self.spec_listing(),
    {
        let word_list = self.child_words();
        join(&word_list)
    }

    /// The words that begin with `partial_word`, in ascending order, with a
    /// comma and a space between neighbours; the empty string where no word
    /// begins so.
    pub fn suggest(&self, partial_word: &str) -> (listed: String)
        requires
            self.wf(),
        ensures
            listed@ == self.spec_suggest(partial_word@),
    {
        proof {
            self.lemma_completions(partial_word@);
        }
        match self.find_node(partial_word) {
            None => String::new(),
            Some(rt) => {
                let n = partial_word.unicode_len();
                let words = if n == 0 {
                    let mut words: Vec<String> = Vec::new();
                    if rt.is_terminal || rt.was_terminal {
                        words.push(String::new());
                    }
                    let mut below = self.child_words();
                    proof {
                        let tails = rt.tails();
                        self.lemma_listing();
                        lemma_texts_concat(words@, below@);
                        assert(texts(words@) =~= if rt.is_word() {
                            seq![Seq::<char>::empty()]
                        } else {
                            Seq::<Seq<char>>::empty()
                        });
                        assert(partial_word@ =~= Seq::<char>::empty());
                        lemma_with_empty_prefix(tails);
                    }
                    words.append(&mut below);
                    words
                } else {
                    let partial = String::from_str(partial_word.substring_char(0, n - 1));
                    let mut start: Vec<String> = Vec::new();
                    start.push(partial);
                    proof {
                        let head = partial@;
                        let tails = rt.tails();
                        let c = partial_word@.last();
                        self.root.lemma_descend_wf(partial_word@);
                        assert(texts(start@) =~= seq![head]);
                        assert(head + seq![c] =~= partial_word@);
                        lemma_completed_single(head, rt.keyed_tails());
                        assert forall|i: int| 0 <= i < tails.len() implies with_prefix(
                            head,
                            rt.keyed_tails(),
                        )[i] == with_prefix(partial_word@, tails)[i] by {
                            assert(head + (seq![c] + tails[i]) =~= (head + seq![c]) + tails[i]);
                        }
                        assert(with_prefix(head, rt.keyed_tails()) =~= with_prefix(
                            partial_word@,
                            tails,
                        ));
                    }
                    self.add_next_letter(rt, &start)
                };
                join(&words)
            },
        }
    }

    /// The words that begin with `prefix`, in ascending order, are read off
    /// the node that `prefix` leads to; where it leads nowhere there are none.
    proof fn lemma_completions(&self, prefix: Seq<char>)
        requires
            self.wf(),
        ensures
            sorted_words(beginning_with(self@, prefix)) == match self.root.descend(prefix) {
                Some(node) => with_prefix(prefix, node.tails()),
                None => Seq::empty(),
            },
            strictly_sorted(sorted_words(beginning_with(self@, prefix))),
            lists(sorted_words(beginning_with(self@, prefix)), beginning_with(self@, prefix)),
    {
        let set = beginning_with(self@, prefix);
        let tails = match self.root.descend(prefix) {
            Some(node) => node.tails(),
            None => Seq::empty(),
        };
        let all = with_prefix(prefix, tails);
        if self.root.descend(prefix) is Some {
            self.root.lemma_descend_wf(prefix);
            self.root.descend(prefix)->0.lemma_tails();
        }
        lemma_with_prefix_sorted(prefix, tails);
        assert forall|w: Seq<char>| all.contains(w) <==> set.contains(w) by {
            if all.contains(w) {
                let i = choose|i: int| 0 <= i < all.len() && all[i] == w;
                let node = self.root.descend(prefix)->0;
                assert(tails.contains(tails[i]));
                assert(node.has_word(tails[i]));
                self.root.lemma_descend_concat(prefix, tails[i]);
                assert(w.subrange(0, prefix.len() as int) =~= prefix);
                assert(self.root.has_word(w));
            }
            if set.contains(w) {
                let tail = w.skip(prefix.len() as int);
                assert(w =~= prefix + tail);
                assert(self.root.has_word(w));
                self.root.lemma_descend_concat(prefix, tail);
                let node = self.root.descend(prefix)->0;
                assert(node.has_word(tail));
                assert(tails.contains(tail));
                let i = choose|i: int| 0 <= i < tails.len() && tails[i] == tail;
                assert(all[i] == w);
            }
        }
        lemma_sorted_words_is(all, set);
        if self.root.descend(prefix) is None {
            assert(all =~= Seq::<Seq<char>>::empty());
        }
    }

    /// The words of one character or more, in ascending order, are read
    /// through the children of the root.
    proof fn lemma_listing(&self)
        requires
            self.wf(),
        ensures
            sorted_words(nonempty(self@)) == self.root.tails_through(self.root.children@.len()),
            strictly_sorted(sorted_words(nonempty(self@))),
            lists(sorted_words(nonempty(self@)), nonempty(self@)),
    {
        let n = self.root.children@.len();
        let all = self.root.tails_through(n);
        let set = nonempty(self@);
        self.root.lemma_tails_through(n);
        assert forall|w: Seq<char>| all.contains(w) <==> set.contains(w) by {
            if all.contains(w) {
                assert(self.root.word_through(n, w));
                let j = choose|j: int|
                    0 <= j < n && keyed_at(self.root.children@, w[0], j) && (
                    #[trigger] self.root.children@[j]).has_word(w.drop_first());
                self.root.lemma_descend_step(w, j);
            }
            if set.contains(w) {
                let j = choose|j: int| keyed_at(self.root.children@, w[0], j);
                self.root.lemma_descend_step(w, j);
                assert(self.root.children@[j].has_word(w.drop_first()));
                assert(self.root.word_through(n, w));
            }
        }
        lemma_sorted_words_is(all, set);
    }

    /// The marks of a node say what the words say: the first mark stands
    /// where a word ends that begins no other word, the second where a word
    /// ends that begins another. No node has both.
    pub proof fn lemma_marks(&self, path: Seq<char>)
        requires
            self.wf(),
        ensures
            self.terminal_at(path) <==> self@.contains(path) && forall|w: Seq<char>|
                self@.contains(w) && path.is_prefix_of(w) ==> w == path,
            self.was_terminal_at(path) <==> self@.contains(path) && exists|w: Seq<char>|
                self@.contains(w) && path.is_prefix_of(w) && w != path,
            !(self.terminal_at(path) && self.was_terminal_at(path)),
    {
        if self.root.descend(path) is Some {
            let node = self.root.descend(path)->0;
            self.root.lemma_descend_wf(path);
            if node.children@.len() == 0 {
                assert forall|w: Seq<char>| self@.contains(w) && path.is_prefix_of(w) implies w
                    == path by {
                    let tail = w.skip(path.len() as int);
                    assert(w =~= path + tail);
                    self.root.lemma_descend_concat(path, tail);
                    if tail.len() > 0 {
                        node.lemma_leaf_paths(tail);
                    }
                    assert(path + tail =~= path);
                }
            } else {
                let child = node.children@[0];
                assert(child.wf() && child.settled());
                let rest = child.lemma_reaches_word();
                let tail = seq![child.key_char->0] + rest;
                assert(tail.drop_first() =~= rest);
                assert(keyed_at(node.children@, tail[0], 0));
                node.lemma_descend_step(tail, 0);
                self.root.lemma_descend_concat(path, tail);
                let w = path + tail;
                assert(w.subrange(0, path.len() as int) =~= path);
                assert(self@.contains(w) && path.is_prefix_of(w) && w != path);
            }
        }
    }

    /// The words of a well-formed tree that begin with `prefix` have a
    /// sorted list: strictly ascending, and holding them and no others.
    pub proof fn lemma_prefix_words_sorted(&self, prefix: Seq<char>)
        requires
            self.wf(),
        ensures
            strictly_sorted(sorted_words(beginning_with(self@, prefix))),
            lists(sorted_words(beginning_with(self@, prefix)), beginning_with(self@, prefix)),
    {
        self.lemma_completions(prefix);
    }

    /// The words of one character or more of a well-formed tree have a
    /// sorted list: strictly ascending, and holding them and no others.
    pub proof fn lemma_nonempty_words_sorted(&self)
        requires
            self.wf(),
        ensures
            strictly_sorted(sorted_words(nonempty(self@))),
            lists(sorted_words(nonempty(self@)), nonempty(self@)),
    {
        self.lemma_listing();
    }

    /// Every word of `words` followed by the character of `node` and then
    /// by each word that is read below `node`: for each such word in
    /// ascending order, all of `words` in their order.
    fn add_next_letter(&self, node: &TrieNode, words: &Vec<String>) -> (output: Vec<String>)
        requires
            node.wf(),
            node.key_char is Some,
        ensures
            texts(output@) == completed(texts(words@), node.keyed_tails()),
        decreases node,
    {
        let c = node.key_char.unwrap();
        let mut add_letter: Vec<String> = Vec::new();
        let mut i: usize = 0;
        while i < words.len()
            invariant
                i <= words@.len(),
                add_letter@.len() == i,
                forall|j: int| 0 <= j < i ==> (#[trigger] add_letter@[j])@ == words@[j]@ + seq![c],
            decreases words@.len() - i,
        {
            let mut word = words[i].clone();
            word.push(c);
            add_letter.push(word);
            i += 1;
        }
        let ghost heads = texts(words@);
        let ghost grown = texts(add_letter@);
        let ghost own = if node.is_word() {
            seq![Seq::<char>::empty()]
        } else {
            Seq::<Seq<char>>::empty()
        };
        proof {
            assert(grown =~= each_before(heads, seq![c]));
            lemma_completed_shift(heads, c, node.tails());
            lemma_completed_concat(grown, own, node.tails_through(node.children@.len()));
            if node.is_word() {
                lemma_completed_empty_tail(grown);
            }
        }
        if node.is_terminal {
            assert(node.tails_through(0) =~= Seq::<Seq<char>>::empty());
            assert(grown + Seq::<Seq<char>>::empty() =~= grown);
            add_letter
        } else {
            let mut below: Vec<String> = Vec::new();
            let mut k: usize = 0;
            assert(texts(below@) =~= Seq::<Seq<char>>::empty());
            while k < node.children.len()
                invariant
                    node.wf(),
                    k <= node.children@.len(),
                    grown == texts(add_letter@),
                    texts(below@) == completed(grown, node.tails_through(k as nat)),
                decreases node.children@.len() - k,
            {
                let child = &node.children[k];
                let mut part = self.add_next_letter(child, &add_letter);
                proof {
                    lemma_texts_concat(below@, part@);
                    lemma_completed_concat(
                        grown,
                        node.tails_through(k as nat),
                        each_after(child.key_char->0, child.tails()),
                    );
                }
                below.append(&mut part);
                k += 1;
            }
            if node.was_terminal {
                let mut output = add_letter;
                proof {
                    lemma_texts_concat(output@, below@);
                }
                output.append(&mut below);
                output
            } else {
                assert(own + node.tails_through(node.children@.len()) =~= node.tails_through(
                    node.children@.len(),
                ));
                below
            }
        }
    }
}

} // verus!
