//! What holds of every well-formed tree, stated over the set of words that
//! a tree stands for and over the answers that its queries give.

use crate::order::{
    lemma_sorted_no_duplicates, lemma_sorted_words_is, lists, sorted_words, strictly_sorted,
};
use crate::trie::{beginning_with, nonempty, Trie};
use vstd::prelude::*;

verus! {

/// `after` is what `before` becomes when `word` is inserted.
pub open spec fn inserted(before: &Trie, word: Seq<char>, after: &Trie) -> bool {
    before.wf() && after.wf() && after@ == before@.insert(word)
}

/// A word that has been inserted is found as a word, and every word that
/// was found before is found still.
pub proof fn law_inserted_word_is_found(before: &Trie, word: Seq<char>, after: &Trie)
    requires
        inserted(before, word, after),
    ensures
        after.spec_search(word, true),
        forall|w: Seq<char>| before.spec_search(w, true) ==> after.spec_search(w, true),
{
}

/// Insertion adds the beginnings of the inserted word to the paths of the
/// tree, and nothing else.
pub proof fn law_paths_after_insert(before: &Trie, word: Seq<char>, after: &Trie, path: Seq<char>)
    requires
        inserted(before, word, after),
    ensures
        after.spec_search(path, false) <==> before.spec_search(path, false) || path.is_prefix_of(
            word,
        ),
{
    if path.len() > 0 {
        if after.spec_search(path, false) {
            let w = choose|w: Seq<char>| after@.contains(w) && path.is_prefix_of(w);
            if w != word {
                assert(before@.contains(w));
            }
        }
        if before.spec_search(path, false) {
            let w = choose|w: Seq<char>| before@.contains(w) && path.is_prefix_of(w);
            assert(after@.contains(w));
        }
        if path.is_prefix_of(word) {
            assert(after@.contains(word));
        }
    }
}

/// A word below which nothing went on loses that mark, and gets the other,
/// when a word is inserted that goes on from it; it stays a word.
pub proof fn law_demotion(before: &Trie, word: Seq<char>, after: &Trie, shorter: Seq<char>)
    requires
        inserted(before, word, after),
        before.terminal_at(shorter),
        shorter.is_prefix_of(word),
        shorter != word,
    ensures
        !after.terminal_at(shorter),
        after.was_terminal_at(shorter),
        after.spec_search(shorter, true),
{
    before.lemma_marks(shorter);
    after.lemma_marks(shorter);
    assert(after@.contains(word));
}

/// Among the beginnings of a word at most one is a word below which
/// nothing goes on: an insertion takes that mark from one node at most.
pub proof fn law_one_demotion(trie: &Trie, word: Seq<char>, one: Seq<char>, other: Seq<char>)
    requires
        trie.wf(),
        trie.terminal_at(one),
        trie.terminal_at(other),
        one.is_prefix_of(word),
        other.is_prefix_of(word),
    ensures
        one == other,
{
    trie.lemma_marks(one);
    trie.lemma_marks(other);
    if one.len() <= other.len() {
        assert(other.subrange(0, one.len() as int) =~= word.subrange(0, one.len() as int));
        assert(one.is_prefix_of(other));
    } else {
        assert(one.subrange(0, other.len() as int) =~= word.subrange(0, other.len() as int));
        assert(other.is_prefix_of(one));
    }
}

/// The node at the end of an inserted word gets the first mark where no
/// other word begins with that word, and the second where one does.
pub proof fn law_mark_of_inserted_word(before: &Trie, word: Seq<char>, after: &Trie)
    requires
        inserted(before, word, after),
    ensures
        after.terminal_at(word) <==> forall|w: Seq<char>|
            before@.contains(w) && word.is_prefix_of(w) ==> w == word,
        after.was_terminal_at(word) <==> exists|w: Seq<char>|
            before@.contains(w) && word.is_prefix_of(w) && w != word,
{
    after.lemma_marks(word);
    if after.was_terminal_at(word) {
        let w = choose|w: Seq<char>| after@.contains(w) && word.is_prefix_of(w) && w != word;
        assert(before@.contains(w));
    }
    if exists|w: Seq<char>| before@.contains(w) && word.is_prefix_of(w) && w != word {
        let w = choose|w: Seq<char>| before@.contains(w) && word.is_prefix_of(w) && w != word;
        assert(after@.contains(w));
    }
}

/// A word that was never inserted and with which no inserted word begins
/// is not found as a word; nor is it found as a path, unless it is the
/// empty path, which every tree holds.
pub proof fn law_unknown_word_is_not_found(trie: &Trie, word: Seq<char>)
    requires
        trie.wf(),
        !trie@.contains(word),
        forall|w: Seq<char>| trie@.contains(w) ==> !word.is_prefix_of(w),
    ensures
        !trie.spec_search(word, true),
        word.len() > 0 ==> !trie.spec_search(word, false),
        word.len() == 0 ==> trie.spec_search(word, false),
{
}

/// The beginning of an inserted word is found as a path; it is found as a
/// word exactly if it was inserted itself.
pub proof fn law_prefix_is_a_path(trie: &Trie, word: Seq<char>, prefix: Seq<char>)
    requires
        trie.wf(),
        trie@.contains(word),
        prefix.is_prefix_of(word),
    ensures
        trie.spec_search(prefix, false),
        trie.spec_search(prefix, true) <==> trie@.contains(prefix),
{
}

/// Two words inserted in either order leave the same words, and so the
/// same answers to every query.
pub proof fn law_insertion_order(
    start: &Trie,
    first: Seq<char>,
    second: Seq<char>,
    one_way_between: &Trie,
    one_way: &Trie,
    other_way_between: &Trie,
    other_way: &Trie,
)
    requires
        inserted(start, first, one_way_between),
        inserted(one_way_between, second, one_way),
        inserted(start, second, other_way_between),
        inserted(other_way_between, first, other_way),
    ensures
        one_way@ == other_way@,
        forall|w: Seq<char>, only_inserted: bool|
            one_way.spec_search(w, only_inserted) == other_way.spec_search(w, only_inserted),
        forall|p: Seq<char>| one_way.spec_suggest(p) == other_way.spec_suggest(p),
        one_way.spec_listing() == other_way.spec_listing(),
{
    assert(one_way@ =~= other_way@);
}

/// The list behind a suggestion holds exactly the inserted words that
/// begin with the prefix, each once, in strictly ascending order; trees
/// with the same words suggest the same.
pub proof fn law_suggest_is_exact(trie: &Trie, prefix: Seq<char>)
    requires
        trie.wf(),
    ensures
        forall|w: Seq<char>|
            sorted_words(beginning_with(trie@, prefix)).contains(w) <==> trie@.contains(w)
                && prefix.is_prefix_of(w),
        sorted_words(beginning_with(trie@, prefix)).no_duplicates(),
        strictly_sorted(sorted_words(beginning_with(trie@, prefix))),
        forall|other: &Trie| other@ == trie@ ==> other.spec_suggest(prefix) == trie.spec_suggest(prefix),
{
    let listed = sorted_words(beginning_with(trie@, prefix));
    trie.lemma_prefix_words_sorted(prefix);
    lemma_sorted_no_duplicates(listed);
    assert forall|w: Seq<char>| listed.contains(w) <==> trie@.contains(w) && prefix.is_prefix_of(
        w,
    ) by {
        assert(beginning_with(trie@, prefix).contains(w) <==> trie@.contains(w)
            && prefix.is_prefix_of(w));
    }
}

/// The list behind the listing of a tree holds exactly the inserted words
/// of one character or more, each once, in strictly ascending order.
pub proof fn law_listing_is_exact(trie: &Trie)
    requires
        trie.wf(),
    ensures
        forall|w: Seq<char>|
            sorted_words(nonempty(trie@)).contains(w) <==> trie@.contains(w) && w.len() > 0,
        sorted_words(nonempty(trie@)).no_duplicates(),
        strictly_sorted(sorted_words(nonempty(trie@))),
{
    let listed = sorted_words(nonempty(trie@));
    trie.lemma_nonempty_words_sorted();
    lemma_sorted_no_duplicates(listed);
    assert forall|w: Seq<char>| listed.contains(w) <==> trie@.contains(w) && w.len() > 0 by {
        assert(nonempty(trie@).contains(w) <==> trie@.contains(w) && w.len() > 0);
    }
}

/// For a prefix that is no path of the tree nothing is suggested.
pub proof fn law_suggest_off_path(trie: &Trie, prefix: Seq<char>)
    requires
        trie.wf(),
        !trie.spec_search(prefix, false),
    ensures
        trie.spec_suggest(prefix) == Seq::<char>::empty(),
{
    let none = Seq::<Seq<char>>::empty();
    assert(strictly_sorted(none));
    assert(lists(none, beginning_with(trie@, prefix)));
    lemma_sorted_words_is(none, beginning_with(trie@, prefix));
}

/// A word inserted a second time changes nothing: the words are the same,
/// and so are the answers to every query.
pub proof fn law_insert_twice(before: &Trie, word: Seq<char>, once: &Trie, twice: &Trie)
    requires
        inserted(before, word, once),
        inserted(once, word, twice),
    ensures
        twice@ == once@,
        forall|w: Seq<char>, only_inserted: bool|
            twice.spec_search(w, only_inserted) == once.spec_search(w, only_inserted),
        forall|p: Seq<char>| twice.spec_suggest(p) == once.spec_suggest(p),
        twice.spec_listing() == once.spec_listing(),
{
    assert(twice@ =~= once@);
}

} // verus!
