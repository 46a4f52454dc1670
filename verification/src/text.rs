//! Strings as sequences of characters: reading a string's characters,
//! growing a string by one, and joining a list of strings.

use vstd::prelude::*;

verus! {

/// What stands between two words of a joined list: a comma and a space.
pub open spec fn separator() -> Seq<char> {
    seq![',', ' ']
}

/// The words of `words` in order, with the separator between neighbours:
/// nothing for no word, the word itself for one.
pub open spec fn join_words(words: Seq<Seq<char>>) -> Seq<char>
    decreases words.len(),
{
    if words.len() == 0 {
        Seq::empty()
    } else if words.len() == 1 {
        words[0]
    } else {
        join_words(words.drop_last()) + separator() + words.last()
    }
}

/// The character sequences that a list of strings stands for.
pub open spec fn texts(words: Seq<String>) -> Seq<Seq<char>> {
    Seq::new(words.len(), |i: int| words[i]@)
}

/// `String::push` of the standard library: the string grows by the given
/// character at its end and is otherwise unchanged.
pub assume_specification[ String::push ](s: &mut String, ch: char)
    ensures
        final(s)@ == old(s)@.push(ch),
;

/// The characters of `s`, in order.
pub fn chars_of(s: &str) -> (v: Vec<char>)
    ensures
        v@ == s@,
{
    let mut v: Vec<char> = Vec::new();
    for c in it: s.chars()
        invariant
            it.seq() == s@,
            v@ == s@.take(it.index() as int),
    {
        v.push(c);
    }
    v
}

/// The string made of the characters `chars[from..to]`.
pub fn string_of(chars: &Vec<char>, from: usize, to: usize) -> (s: String)
    requires
        from <= to <= chars@.len(),
    ensures
        s@ == chars@.subrange(from as int, to as int),
{
    let mut s = String::new();
    let mut i: usize = from;
    while i < to
        invariant
            from <= i <= to <= chars@.len(),
            s@ == chars@.subrange(from as int, i as int),
        decreases to - i,
    {
        s.push(chars[i]);
        i += 1;
        assert(chars@.subrange(from as int, i as int) == chars@.subrange(
            from as int,
            i - 1,
        ).push(chars@[i - 1]));
    }
    assert(chars@.subrange(from as int, from as int) == Seq::<char>::empty());
    s
}

/// Joins the words with a comma and a space between neighbours.
pub fn join(words: &Vec<String>) -> (s: String)
    ensures
        s@ == join_words(texts(words@)),
{
    let mut s = String::new();
    let mut i: usize = 0;
    while i < words.len()
        invariant
            i <= words@.len(),
            s@ == join_words(texts(words@).take(i as int)),
        decreases words@.len() - i,
    {
        if i > 0 {
            s.push(',');
            s.push(' ');
        }
        s.append(words[i].as_str());
        proof {
            let before = texts(words@).take(i as int);
            let now = texts(words@).take(i + 1);
            assert(now.drop_last() == before);
            assert(now.last() == words@[i as int]@);
            assert(Seq::<char>::empty().push(',').push(' ') == separator());
            if i > 0 {
                assert(s@ == join_words(before) + separator() + now.last());
            } else {
                assert(s@ == now[0]);
            }
        }
        i += 1;
    }
    assert(texts(words@).take(words@.len() as int) == texts(words@));
    s
}

} // verus!
