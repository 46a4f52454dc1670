//! The nodes of the prefix tree and what a node stands for.

use vstd::prelude::*;

verus! {

/// One position of the tree, reached from the root by a unique path.
///
/// The children are kept in ascending order of their characters, which gives
/// every walk over the tree one fixed order.
pub(crate) struct TrieNode {
    /// A word ends here and none goes on below.
    pub(crate) is_terminal: bool,
    /// A word ends here and others go on below.
    pub(crate) was_terminal: bool,
    pub(crate) children: Vec<TrieNode>,
    /// The character that leads here; the root has none.
    pub(crate) key_char: Option<char>,
}

/// The node at position `i` of `nodes` is the one reached by `c`.
pub(crate) open spec fn keyed_at(nodes: Seq<TrieNode>, c: char, i: int) -> bool {
    0 <= i < nodes.len() && nodes[i].key_char == Some(c)
}

impl TrieNode {
    /// A word ends at this node.
    pub(crate) open spec fn is_word(&self) -> bool {
        self.is_terminal || self.was_terminal
    }

    /// The child at position `i` is the one reached by `c`.
    pub(crate) open spec fn child_at(&self, c: char, i: int) -> bool {
        keyed_at(self.children@, c, i)
    }

    /// Some child is reached by `c`.
    pub(crate) open spec fn has_child(&self, c: char) -> bool {
        exists|i: int| keyed_at(self.children@, c, i)
    }

    /// The child reached by `c`, where there is one.
    pub(crate) open spec fn child(&self, c: char) -> TrieNode {
        self.children@[choose|i: int| keyed_at(self.children@, c, i)]
    }

    /// The node reached from here along `path`, if the tree holds that path.
    pub(crate) open spec fn descend(&self, path: Seq<char>) -> Option<TrieNode>
        decreases path.len(),
    {
        if path.len() == 0 {
            Some(*self)
        } else if self.has_child(path[0]) {
            self.child(path[0]).descend(path.drop_first())
        } else {
            None
        }
    }

    /// The tree below this node holds `path`.
    pub(crate) open spec fn has_path(&self, path: Seq<char>) -> bool {
        self.descend(path) is Some
    }

    /// A word ends at the node reached from here along `path`.
    pub(crate) open spec fn has_word(&self, path: Seq<char>) -> bool {
        match self.descend(path) {
            Some(node) => node.is_word(),
            None => false,
        }
    }

    /// The flags agree with the children, the children are keyed and strictly
    /// ascending, every child is well formed, and a child without children of
    /// its own ends a word.
    pub(crate) open spec fn wf(&self) -> bool
        decreases self,
    {
        &&& self.is_terminal ==> self.children@.len() == 0
        &&& self.was_terminal ==> self.children@.len() > 0
        &&& forall|i: int|
            0 <= i < self.children@.len() ==> (#[trigger] self.children@[i]).key_char is Some
        &&& forall|i: int, j: int|
            0 <= i < j < self.children@.len() ==> (#[trigger] self.children@[i]).key_char->0
                < (#[trigger] self.children@[j]).key_char->0
        &&& forall|i: int|
            0 <= i < self.children@.len() ==> (#[trigger] self.children@[i]).wf()
        &&& forall|i: int|
            0 <= i < self.children@.len() ==> (#[trigger] self.children@[i]).settled()
    }

    /// The node has children or ends a word: no path stops short of a word.
    pub(crate) open spec fn settled(&self) -> bool {
        self.children@.len() == 0 ==> self.is_terminal
    }

    /// In a well-formed node a character leads to at most one child.
    pub(crate) proof fn lemma_child_is(&self, c: char, i: int)
        requires
            self.wf(),
            self.child_at(c, i),
        ensures
            self.has_child(c),
            self.child(c) == self.children@[i],
    {
        let j = choose|j: int| keyed_at(self.children@, c, j);
        if i < j {
            assert(self.children@[i].key_char->0 < self.children@[j].key_char->0);
        }
        if j < i {
            assert(self.children@[j].key_char->0 < self.children@[i].key_char->0);
        }
    }
}

impl TrieNode {
    /// Looks for the child reached by `c`: its position, or else the
    /// position at which such a child would keep the children in order.
    pub(crate) fn find_child(&self, c: char) -> (found: Result<usize, usize>)
        requires
            self.wf(),
        ensures
            match found {
                Ok(i) => self.child_at(c, i as int),
                Err(i) => {
                    &&& !self.has_child(c)
                    &&& i <= self.children@.len()
                    &&& forall|k: int| 0 <= k < i ==> (#[trigger] self.children@[k]).key_char->0 < c
                    &&& forall|k: int|
                        i <= k < self.children@.len() ==> c < (#[trigger] self.children@[
                            k
                        ]).key_char->0
                },
            },
    {
        let mut lo: usize = 0;
        let mut hi: usize = self.children.len();
        while lo < hi
            invariant
                self.wf(),
                lo <= hi <= self.children@.len(),
                forall|k: int| 0 <= k < lo ==> (#[trigger] self.children@[k]).key_char->0 < c,
                forall|k: int|
                    hi <= k < self.children@.len() ==> c < (#[trigger] self.children@[k]).key_char->0,
            decreases hi - lo,
        {
            let mid: usize = lo + (hi - lo) / 2;
            let key = self.children[mid].key_char.unwrap();
            if key == c {
                return Ok(mid);
            } else if key < c {
                assert forall|k: int| 0 <= k < mid + 1 implies (#[trigger] self.children@[k]).key_char->0
                    < c by {
                    if k < mid {
                        assert(self.children@[k].key_char->0 < self.children@[mid as int].key_char->0);
                    }
                }
                lo = mid + 1;
            } else {
                assert forall|k: int| mid <= k < self.children@.len() implies c
                    < (#[trigger] self.children@[k]).key_char->0 by {
                    if mid < k {
                        assert(self.children@[mid as int].key_char->0 < self.children@[k].key_char->0);
                    }
                }
                hi = mid;
            }
        }
        Err(lo)
    }
}

impl TrieNode {
    /// From a well-formed node the first character of a path picks the
    /// child, and the rest of the path is followed from there.
    pub(crate) proof fn lemma_descend_step(&self, path: Seq<char>, i: int)
        requires
            self.wf(),
            path.len() > 0,
            self.child_at(path[0], i),
        ensures
            self.descend(path) == self.children@[i].descend(path.drop_first()),
    {
        self.lemma_child_is(path[0], i);
    }

    /// A node without children holds no path but the empty one.
    pub(crate) proof fn lemma_leaf_paths(&self, path: Seq<char>)
        requires
            self.children@.len() == 0,
            path.len() > 0,
        ensures
            self.descend(path) is None,
    {
    }
}

/// A node without children that ends no word.
pub(crate) fn get_trie_node(pchar: Option<char>) -> (node: TrieNode)
    ensures
        node.key_char == pchar,
        !node.is_terminal,
        !node.was_terminal,
        node.children@.len() == 0,
        node.wf(),
{
    TrieNode { is_terminal: false, was_terminal: false, children: Vec::new(), key_char: pchar }
}

} // verus!
