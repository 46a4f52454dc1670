//! What the ordered walk over a node yields: exactly the words that end at
//! or below the node, in ascending order.

use crate::node::{keyed_at, TrieNode};
use crate::order::{lemma_lex_prepend, lex_lt, strictly_sorted};
use vstd::prelude::*;

verus! {

/// Each word of `tails` with `c` put before it.
pub(crate) open spec fn each_after(c: char, tails: Seq<Seq<char>>) -> Seq<Seq<char>> {
    Seq::new(tails.len(), |i: int| seq![c] + tails[i])
}

impl TrieNode {
    /// The words that are read from this node downwards, in ascending
    /// order: the empty one where a word ends here, then child by child what
    /// is read through each.
    pub(crate) open spec fn tails(&self) -> Seq<Seq<char>>
        decreases self, self.children@.len() + 1,
    {
        let own = if self.is_word() {
            seq![Seq::<char>::empty()]
        } else {
            Seq::<Seq<char>>::empty()
        };
        own + self.tails_through(self.children@.len())
    }

    /// The words that are read through the first `k` children, each
    /// beginning with its child's character.
    pub(crate) open spec fn tails_through(&self, k: nat) -> Seq<Seq<char>>
        decreases self, k,
    {
        if k == 0 || k > self.children@.len() {
            Seq::empty()
        } else {
            let child = self.children@[k - 1];
            self.tails_through((k - 1) as nat) + each_after(child.key_char->0, child.tails())
        }
    }

    /// The words that are read from this node's own character downwards.
    pub(crate) open spec fn keyed_tails(&self) -> Seq<Seq<char>> {
        each_after(self.key_char->0, self.tails())
    }
}

/// A word is among those of `tails` with `c` before them exactly if it
/// begins with `c` and its rest is among `tails`.
pub(crate) proof fn lemma_each_after_contains(c: char, tails: Seq<Seq<char>>, w: Seq<char>)
    ensures
        each_after(c, tails).contains(w) <==> w.len() > 0 && w[0] == c && tails.contains(
            w.drop_first(),
        ),
{
    let block = each_after(c, tails);
    if block.contains(w) {
        let i = choose|i: int| 0 <= i < block.len() && block[i] == w;
        assert(w.drop_first() =~= tails[i]);
    }
    if w.len() > 0 && w[0] == c && tails.contains(w.drop_first()) {
        let i = choose|i: int| 0 <= i < tails.len() && tails[i] == w.drop_first();
        assert(block[i] =~= w);
    }
}

/// Putting one character before each word of a sorted list keeps it sorted.
pub(crate) proof fn lemma_each_after_sorted(c: char, tails: Seq<Seq<char>>)
    requires
        strictly_sorted(tails),
    ensures
        strictly_sorted(each_after(c, tails)),
{
    let block = each_after(c, tails);
    assert forall|i: int, j: int| 0 <= i < j < block.len() implies lex_lt(block[i], block[j]) by {
        assert(lex_lt(tails[i], tails[j]));
        lemma_lex_prepend(seq![c], tails[i], tails[j]);
    }
}

/// Each word of `heads` with `tail` behind it.
pub(crate) open spec fn each_before(heads: Seq<Seq<char>>, tail: Seq<char>) -> Seq<Seq<char>> {
    Seq::new(heads.len(), |i: int| heads[i] + tail)
}

/// Every head followed by every tail: for each tail in turn, all the heads
/// in their order with that tail behind them.
pub(crate) open spec fn completed(heads: Seq<Seq<char>>, tails: Seq<Seq<char>>) -> Seq<Seq<char>>
    decreases tails.len(),
{
    if tails.len() == 0 {
        Seq::empty()
    } else {
        completed(heads, tails.drop_last()) + each_before(heads, tails.last())
    }
}

/// Completing with two lists of tails, one after the other, is completing
/// with the two lists joined.
pub(crate) proof fn lemma_completed_concat(
    heads: Seq<Seq<char>>,
    a: Seq<Seq<char>>,
    b: Seq<Seq<char>>,
)
    ensures
        completed(heads, a + b) == completed(heads, a) + completed(heads, b),
    decreases b.len(),
{
    if b.len() == 0 {
        assert(a + b =~= a);
        assert(completed(heads, a) + completed(heads, b) =~= completed(heads, a));
    } else {
        assert((a + b).drop_last() =~= a + b.drop_last());
        assert((a + b).last() == b.last());
        lemma_completed_concat(heads, a, b.drop_last());
        assert(completed(heads, a + b) =~= completed(heads, a) + completed(heads, b));
    }
}

/// A character at the front of every tail may as well stand at the end of
/// every head.
pub(crate) proof fn lemma_completed_shift(heads: Seq<Seq<char>>, c: char, tails: Seq<Seq<char>>)
    ensures
        completed(heads, each_after(c, tails)) == completed(each_before(heads, seq![c]), tails),
    decreases tails.len(),
{
    let keyed = each_after(c, tails);
    let grown = each_before(heads, seq![c]);
    if tails.len() > 0 {
        assert(keyed.drop_last() =~= each_after(c, tails.drop_last()));
        lemma_completed_shift(heads, c, tails.drop_last());
        assert forall|i: int| 0 <= i < heads.len() implies each_before(heads, keyed.last())[i]
            == each_before(grown, tails.last())[i] by {
            assert(heads[i] + (seq![c] + tails.last()) =~= (heads[i] + seq![c]) + tails.last());
        }
        assert(each_before(heads, keyed.last()) =~= each_before(grown, tails.last()));
    }
}

/// Completing with the empty tail alone gives the heads back.
pub(crate) proof fn lemma_completed_empty_tail(heads: Seq<Seq<char>>)
    ensures
        completed(heads, seq![Seq::<char>::empty()]) == heads,
{
    let only = seq![Seq::<char>::empty()];
    assert(only.drop_last() =~= Seq::<Seq<char>>::empty());
    assert forall|i: int| 0 <= i < heads.len() implies each_before(heads, only.last())[i]
        == heads[i] by {
        assert(heads[i] + Seq::<char>::empty() =~= heads[i]);
    }
    assert(each_before(heads, only.last()) =~= heads);
    assert(completed(heads, only.drop_last()) =~= Seq::<Seq<char>>::empty());
    assert(completed(heads, only) =~= heads);
}

/// Each word of `tails` with `prefix` before it.
pub(crate) open spec fn with_prefix(prefix: Seq<char>, tails: Seq<Seq<char>>) -> Seq<Seq<char>> {
    Seq::new(tails.len(), |i: int| prefix + tails[i])
}

/// The empty prefix changes no word.
pub(crate) proof fn lemma_with_empty_prefix(tails: Seq<Seq<char>>)
    ensures
        with_prefix(Seq::empty(), tails) == tails,
{
    let same = with_prefix(Seq::empty(), tails);
    assert forall|i: int| 0 <= i < tails.len() implies same[i] == tails[i] by {
        assert(Seq::<char>::empty() + tails[i] =~= tails[i]);
    }
    assert(same =~= tails);
}

/// Completing a single head is putting it before every tail.
pub(crate) proof fn lemma_completed_single(head: Seq<char>, tails: Seq<Seq<char>>)
    ensures
        completed(seq![head], tails) == with_prefix(head, tails),
    decreases tails.len(),
{
    if tails.len() > 0 {
        lemma_completed_single(head, tails.drop_last());
        assert(each_before(seq![head], tails.last()) =~= seq![head + tails.last()]);
        assert(with_prefix(head, tails) =~= with_prefix(head, tails.drop_last()) + seq![
            head + tails.last(),
        ]);
    } else {
        assert(with_prefix(head, tails) =~= Seq::<Seq<char>>::empty());
    }
}

/// A prefix before a sorted list keeps it sorted.
pub(crate) proof fn lemma_with_prefix_sorted(prefix: Seq<char>, tails: Seq<Seq<char>>)
    requires
        strictly_sorted(tails),
    ensures
        strictly_sorted(with_prefix(prefix, tails)),
{
    let all = with_prefix(prefix, tails);
    assert forall|i: int, j: int| 0 <= i < j < all.len() implies lex_lt(all[i], all[j]) by {
        assert(lex_lt(tails[i], tails[j]));
        lemma_lex_prepend(prefix, tails[i], tails[j]);
    }
}

impl TrieNode {
    /// A word is read through one of the first `k` children exactly if its
    /// first character leads to one of them and its rest is a word there.
    pub(crate) open spec fn word_through(&self, k: nat, w: Seq<char>) -> bool {
        w.len() > 0 && exists|j: int|
            0 <= j < k && keyed_at(self.children@, w[0], j) && (#[trigger] self.children@[j]).has_word(
                w.drop_first(),
            )
    }

    /// The walk through the first `k` children yields the words read
    /// through them, in ascending order.
    pub(crate) proof fn lemma_tails_through(&self, k: nat)
        requires
            self.wf(),
            k <= self.children@.len(),
        ensures
            forall|w: Seq<char>| self.tails_through(k).contains(w) <==> self.word_through(k, w),
            strictly_sorted(self.tails_through(k)),
        decreases self, k,
    {
        let all = self.tails_through(k);
        if k > 0 {
            let child = self.children@[k - 1];
            let c = child.key_char->0;
            let before = self.tails_through((k - 1) as nat);
            let block = each_after(c, child.tails());
            self.lemma_tails_through((k - 1) as nat);
            child.lemma_tails();
            lemma_each_after_sorted(c, child.tails());
            assert(all == before + block);
            assert forall|w: Seq<char>| all.contains(w) <==> self.word_through(k, w) by {
                lemma_each_after_contains(c, child.tails(), w);
                if all.contains(w) {
                    let i = choose|i: int| 0 <= i < all.len() && all[i] == w;
                    if i < before.len() {
                        assert(before[i] == w);
                        assert(before.contains(w));
                        assert(self.word_through((k - 1) as nat, w));
                    } else {
                        assert(block[i - before.len()] == w);
                        assert(block.contains(w));
                        assert(keyed_at(self.children@, w[0], k - 1));
                    }
                }
                if self.word_through(k, w) {
                    let j = choose|j: int|
                        0 <= j < k && keyed_at(self.children@, w[0], j) && (
                        #[trigger] self.children@[j]).has_word(w.drop_first());
                    if j < k - 1 {
                        assert(self.word_through((k - 1) as nat, w));
                        let i = choose|i: int| 0 <= i < before.len() && before[i] == w;
                        assert(all[i] == w);
                    } else {
                        let i = choose|i: int| 0 <= i < block.len() && block[i] == w;
                        assert(all[before.len() + i] == w);
                    }
                }
            }
            assert forall|i: int, j: int| 0 <= i < j < all.len() implies lex_lt(all[i], all[j]) by {
                if j < before.len() {
                    assert(lex_lt(before[i], before[j]));
                } else if i >= before.len() {
                    assert(lex_lt(block[i - before.len()], block[j - before.len()]));
                } else {
                    let w = before[i];
                    assert(before.contains(w));
                    assert(self.word_through((k - 1) as nat, w));
                    let m = choose|m: int|
                        0 <= m < k - 1 && keyed_at(self.children@, w[0], m) && (
                        #[trigger] self.children@[m]).has_word(w.drop_first());
                    assert(self.children@[m].key_char->0 < self.children@[k - 1].key_char->0);
                    assert(all[j] == block[j - before.len()]);
                    assert(all[j][0] == c);
                }
            }
        }
    }

    /// The walk over a node yields the words that end at or below it, in
    /// ascending order.
    pub(crate) proof fn lemma_tails(&self)
        requires
            self.wf(),
        ensures
            forall|w: Seq<char>| self.tails().contains(w) <==> self.has_word(w),
            strictly_sorted(self.tails()),
        decreases self, self.children@.len() + 1,
    {
        let n = self.children@.len();
        let own = if self.is_word() {
            seq![Seq::<char>::empty()]
        } else {
            Seq::<Seq<char>>::empty()
        };
        let below = self.tails_through(n);
        let all = self.tails();
        self.lemma_tails_through(n);
        assert(all == own + below);
        assert forall|i: int| 0 <= i < below.len() implies (#[trigger] below[i]).len() > 0 by {
            assert(below.contains(below[i]));
            assert(self.word_through(n, below[i]));
        }
        assert forall|w: Seq<char>| all.contains(w) <==> self.has_word(w) by {
            if all.contains(w) {
                let i = choose|i: int| 0 <= i < all.len() && all[i] == w;
                if i < own.len() {
                    assert(w =~= Seq::<char>::empty());
                } else {
                    assert(below[i - own.len()] == w);
                    assert(below.contains(w));
                    assert(self.word_through(n, w));
                    let j = choose|j: int|
                        0 <= j < n && keyed_at(self.children@, w[0], j) && (
                        #[trigger] self.children@[j]).has_word(w.drop_first());
                    self.lemma_descend_step(w, j);
                }
            }
            if self.has_word(w) {
                if w.len() == 0 {
                    assert(w =~= Seq::<char>::empty());
                    assert(all[0] == w);
                } else {
                    let j = choose|j: int| keyed_at(self.children@, w[0], j);
                    self.lemma_descend_step(w, j);
                    assert(self.children@[j].has_word(w.drop_first()));
                    assert(self.word_through(n, w));
                    let i = choose|i: int| 0 <= i < below.len() && below[i] == w;
                    assert(all[own.len() + i] == w);
                }
            }
        }
        assert forall|i: int, j: int| 0 <= i < j < all.len() implies lex_lt(all[i], all[j]) by {
            if i < own.len() {
                assert(all[j] == below[j - own.len()]);
            } else {
                assert(lex_lt(below[i - own.len()], below[j - own.len()]));
            }
        }
    }
}

} // verus!
