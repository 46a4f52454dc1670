//! The order in which words are listed: character by character, a word
//! before each of its extensions.

use vstd::prelude::*;

verus! {

/// `a` comes before `b`: at the first position where they differ `a` has
/// the smaller character, or `a` ends there and `b` goes on.
pub open spec fn lex_lt(a: Seq<char>, b: Seq<char>) -> bool
    decreases a.len(),
{
    if b.len() == 0 {
        false
    } else if a.len() == 0 {
        true
    } else if a[0] != b[0] {
        a[0] < b[0]
    } else {
        lex_lt(a.drop_first(), b.drop_first())
    }
}

/// Each word of the list comes before all that follow it.
pub open spec fn strictly_sorted(words: Seq<Seq<char>>) -> bool {
    forall|i: int, j: int| 0 <= i < j < words.len() ==> lex_lt(words[i], words[j])
}

/// The list holds the words of the set and no others.
pub open spec fn lists(words: Seq<Seq<char>>, set: Set<Seq<char>>) -> bool {
    forall|w: Seq<char>| words.contains(w) <==> set.contains(w)
}

/// The words of a set in ascending order, each once.
pub open spec fn sorted_words(set: Set<Seq<char>>) -> Seq<Seq<char>> {
    choose|words: Seq<Seq<char>>| strictly_sorted(words) && lists(words, set)
}

/// No word comes before itself.
pub proof fn lemma_lex_irreflexive(a: Seq<char>)
    ensures
        !lex_lt(a, a),
    decreases a.len(),
{
    if a.len() > 0 {
        lemma_lex_irreflexive(a.drop_first());
    }
}

/// Of two words at most one comes before the other.
pub proof fn lemma_lex_asymmetric(a: Seq<char>, b: Seq<char>)
    requires
        lex_lt(a, b),
    ensures
        !lex_lt(b, a),
    decreases a.len(),
{
    if a.len() > 0 && b.len() > 0 && a[0] == b[0] {
        lemma_lex_asymmetric(a.drop_first(), b.drop_first());
    }
}

/// A common beginning does not change the order of two words.
pub proof fn lemma_lex_prepend(p: Seq<char>, a: Seq<char>, b: Seq<char>)
    ensures
        lex_lt(p + a, p + b) == lex_lt(a, b),
    decreases p.len(),
{
    if p.len() == 0 {
        assert(p + a =~= a);
        assert(p + b =~= b);
    } else {
        let q = p.drop_first();
        assert((p + a).drop_first() =~= q + a);
        assert((p + b).drop_first() =~= q + b);
        lemma_lex_prepend(q, a, b);
    }
}

/// A strictly sorted list holds no word twice.
pub proof fn lemma_sorted_no_duplicates(words: Seq<Seq<char>>)
    requires
        strictly_sorted(words),
    ensures
        words.no_duplicates(),
{
    assert forall|i: int, j: int| 0 <= i < words.len() && 0 <= j < words.len() && i != j implies words[i]
        != words[j] by {
        lemma_lex_irreflexive(words[i]);
        if i < j {
            assert(lex_lt(words[i], words[j]));
        } else {
            assert(lex_lt(words[j], words[i]));
        }
    }
}

/// Two strictly sorted lists of the same words are the same list.
pub proof fn lemma_sorted_unique(x: Seq<Seq<char>>, y: Seq<Seq<char>>)
    requires
        strictly_sorted(x),
        strictly_sorted(y),
        forall|w: Seq<char>| x.contains(w) <==> y.contains(w),
    ensures
        x == y,
    decreases x.len(),
{
    if x.len() == 0 {
        if y.len() > 0 {
            assert(y.contains(y[0]));
            assert(x.contains(y[0]));
        }
        assert(x =~= y);
    } else {
        assert(x.contains(x[0]));
        assert(y.contains(x[0]));
        let j = choose|j: int| 0 <= j < y.len() && y[j] == x[0];
        assert(y.contains(y[0]));
        assert(x.contains(y[0]));
        let k = choose|k: int| 0 <= k < x.len() && x[k] == y[0];
        if j > 0 && k > 0 {
            assert(lex_lt(y[0], y[j]));
            assert(lex_lt(x[0], x[k]));
            lemma_lex_asymmetric(x[0], y[0]);
        }
        if j > 0 && k == 0 {
            assert(lex_lt(y[0], y[j]));
            lemma_lex_irreflexive(x[0]);
        }
        assert(x[0] == y[0]);
        let xs = x.drop_first();
        let ys = y.drop_first();
        assert forall|w: Seq<char>| xs.contains(w) <==> ys.contains(w) by {
            lemma_lex_irreflexive(w);
            if xs.contains(w) {
                let i = choose|i: int| 0 <= i < xs.len() && xs[i] == w;
                assert(x[i + 1] == w);
                assert(lex_lt(x[0], x[i + 1]));
                assert(x.contains(w));
                let m = choose|m: int| 0 <= m < y.len() && y[m] == w;
                assert(m > 0);
                assert(ys[m - 1] == w);
            }
            if ys.contains(w) {
                let i = choose|i: int| 0 <= i < ys.len() && ys[i] == w;
                assert(y[i + 1] == w);
                assert(lex_lt(y[0], y[i + 1]));
                assert(y.contains(w));
                let m = choose|m: int| 0 <= m < x.len() && x[m] == w;
                assert(m > 0);
                assert(xs[m - 1] == w);
            }
        }
        assert forall|i: int, j: int| 0 <= i < j < xs.len() implies lex_lt(xs[i], xs[j]) by {
            assert(lex_lt(x[i + 1], x[j + 1]));
        }
        assert forall|i: int, j: int| 0 <= i < j < ys.len() implies lex_lt(ys[i], ys[j]) by {
            assert(lex_lt(y[i + 1], y[j + 1]));
        }
        lemma_sorted_unique(xs, ys);
        assert(x =~= seq![x[0]] + xs);
        assert(y =~= seq![y[0]] + ys);
    }
}

/// A strictly sorted list of a set's words is the set's sorted list.
pub proof fn lemma_sorted_words_is(words: Seq<Seq<char>>, set: Set<Seq<char>>)
    requires
        strictly_sorted(words),
        lists(words, set),
    ensures
        sorted_words(set) == words,
{
    let chosen = sorted_words(set);
    assert(strictly_sorted(chosen) && lists(chosen, set));
    lemma_sorted_unique(chosen, words);
}

} // verus!
