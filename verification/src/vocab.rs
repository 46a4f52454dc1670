//! Vocabulary text: words separated by commas and line ends, with white
//! space around them that does not count.

use crate::text::{chars_of, string_of};
use crate::trie::Trie;
use vstd::prelude::*;

verus! {

/// A comma or a line feed ends one field and begins the next.
pub open spec fn is_separator(c: char) -> bool {
    c == ',' || c == '\n'
}

/// The characters that count as white space: tab to carriage return, the
/// space, next line, the no-break space, and the Unicode spaces and line
/// and paragraph separators.
pub open spec fn is_space(c: char) -> bool {
    ||| '\u{9}' <= c <= '\u{d}'
    ||| c == ' '
    ||| c == '\u{85}'
    ||| c == '\u{a0}'
    ||| c == '\u{1680}'
    ||| '\u{2000}' <= c <= '\u{200a}'
    ||| c == '\u{2028}'
    ||| c == '\u{2029}'
    ||| c == '\u{202f}'
    ||| c == '\u{205f}'
    ||| c == '\u{3000}'
}

/// `s` without the white space at its beginning.
pub open spec fn trim_start(s: Seq<char>) -> Seq<char>
    decreases s.len(),
{
    if s.len() > 0 && is_space(s[0]) {
        trim_start(s.drop_first())
    } else {
        s
    }
}

/// `s` without the white space at its end.
pub open spec fn trim_end(s: Seq<char>) -> Seq<char>
    decreases s.len(),
{
    if s.len() > 0 && is_space(s.last()) {
        trim_end(s.drop_last())
    } else {
        s
    }
}

/// `s` without the white space at both ends.
pub open spec fn trimmed(s: Seq<char>) -> Seq<char> {
    trim_end(trim_start(s))
}

/// `text[from..to]` is a field: it holds no separator, and it reaches on
/// both sides to a separator or to the end of the text.
pub open spec fn is_field(text: Seq<char>, from: int, to: int) -> bool {
    &&& 0 <= from <= to <= text.len()
    &&& from == 0 || is_separator(text[from - 1])
    &&& to == text.len() || is_separator(text[to])
    &&& forall|k: int| from <= k < to ==> !is_separator(#[trigger] text[k])
}

/// `word` is what is left of a field of `text` when the white space
/// around it is taken off, and something is left.
pub open spec fn is_token(text: Seq<char>, word: Seq<char>) -> bool {
    word.len() > 0 && exists|from: int, to: int|
        #![trigger is_field(text, from, to)]
        is_field(text, from, to) && word == trimmed(text.subrange(from, to))
}

/// The words of a vocabulary text: its fields without the white space
/// around them, but for those of which nothing is left.
pub open spec fn tokens(text: Seq<char>) -> Set<Seq<char>> {
    Set::new(|word: Seq<char>| is_token(text, word))
}

/// `word` is a token of `text` from a field that ends before `limit`.
pub(crate) open spec fn is_token_before(text: Seq<char>, limit: int, word: Seq<char>) -> bool {
    word.len() > 0 && exists|from: int, to: int|
        #![trigger is_field(text, from, to)]
        is_field(text, from, to) && to < limit && word == trimmed(text.subrange(from, to))
}

/// Whether `c` is a comma or a line feed.
pub fn is_separator_char(c: char) -> (yes: bool)
    ensures
        yes == is_separator(c),
{
    c == ',' || c == '\n'
}

/// Whether `c` counts as white space.
pub fn is_space_char(c: char) -> (yes: bool)
    ensures
        yes == is_space(c),
{
    ('\u{9}' <= c && c <= '\u{d}') || c == ' ' || c == '\u{85}' || c == '\u{a0}' || c == '\u{1680}'
        || ('\u{2000}' <= c && c <= '\u{200a}') || c == '\u{2028}' || c == '\u{2029}' || c
        == '\u{202f}' || c == '\u{205f}' || c == '\u{3000}'
}

/// What is left when the white space at the beginning is taken off is the
/// end of the text, and does not begin with white space.
pub proof fn lemma_trim_start(s: Seq<char>) -> (k: int)
    ensures
        0 <= k <= s.len(),
        trim_start(s) == s.skip(k),
        forall|j: int| 0 <= j < k ==> is_space(#[trigger] s[j]),
        k < s.len() ==> !is_space(s[k]),
    decreases s.len(),
{
    if s.len() > 0 && is_space(s[0]) {
        let rest = s.drop_first();
        let k = lemma_trim_start(rest);
        assert(rest.skip(k) =~= s.skip(k + 1));
        assert forall|j: int| 0 <= j < k + 1 implies is_space(#[trigger] s[j]) by {
            if j > 0 {
                assert(s[j] == rest[j - 1]);
            }
        }
        k + 1
    } else {
        assert(s.skip(0) =~= s);
        0
    }
}

/// What is left when the white space at the end is taken off is the
/// beginning of the text, and does not end with white space.
pub proof fn lemma_trim_end(s: Seq<char>) -> (k: int)
    ensures
        0 <= k <= s.len(),
        trim_end(s) == s.take(k),
        forall|j: int| k <= j < s.len() ==> is_space(#[trigger] s[j]),
        k > 0 ==> !is_space(s[k - 1]),
    decreases s.len(),
{
    if s.len() > 0 && is_space(s.last()) {
        let rest = s.drop_last();
        let k = lemma_trim_end(rest);
        assert(rest.take(k) =~= s.take(k));
        assert forall|j: int| k <= j < s.len() implies is_space(#[trigger] s[j]) by {
            if j < rest.len() {
                assert(s[j] == rest[j]);
            }
        }
        k
    } else {
        assert(s.take(s.len() as int) =~= s);
        s.len() as int
    }
}

/// A token holds no separator, and neither begins nor ends with white
/// space.
pub proof fn lemma_token_shape(text: Seq<char>, word: Seq<char>)
    requires
        is_token(text, word),
    ensures
        word.len() > 0,
        !is_space(word[0]),
        !is_space(word.last()),
        forall|k: int| 0 <= k < word.len() ==> !is_separator(#[trigger] word[k]),
{
    let (from, to) = choose|from: int, to: int|
        #![trigger is_field(text, from, to)]
        is_field(text, from, to) && word == trimmed(text.subrange(from, to));
    let field = text.subrange(from, to);
    let a = lemma_trim_start(field);
    let rest = field.skip(a);
    let b = lemma_trim_end(rest);
    assert(word == rest.take(b));
    assert(word[0] == field[a]);
    assert(word.last() == rest[b - 1]);
    assert forall|k: int| 0 <= k < word.len() implies !is_separator(#[trigger] word[k]) by {
        assert(word[k] == text[from + a + k]);
    }
}

/// A field is fixed by any position between its ends: two fields that
/// meet are one.
pub(crate) proof fn lemma_field_is(text: Seq<char>, start: int, end: int, from: int, to: int)
    requires
        is_field(text, start, end),
        is_field(text, from, to),
        start <= to <= end,
    ensures
        from == start,
        to == end,
{
    if to < end {
        assert(!is_separator(text[to]));
    }
    if from > start {
        assert(!is_separator(text[from - 1]));
    }
    if from < start {
        assert(!is_separator(text[start - 1]));
    }
}

/// The end of the field that begins at `start`: the next separator, or
/// the end of the text.
pub fn field_end(chars: &Vec<char>, start: usize) -> (end: usize)
    requires
        start <= chars@.len(),
    ensures
        start <= end <= chars@.len(),
        end == chars@.len() || is_separator(chars@[end as int]),
        forall|k: int| start <= k < end ==> !is_separator(#[trigger] chars@[k]),
{
    let mut end: usize = start;
    while end < chars.len() && !is_separator_char(chars[end])
        invariant
            start <= end <= chars@.len(),
            forall|k: int| start <= k < end ==> !is_separator(#[trigger] chars@[k]),
        decreases chars@.len() - end,
    {
        end += 1;
    }
    end
}

/// Where `chars[start..end]` begins and ends once the white space around
/// it is taken off.
pub fn trim_bounds(chars: &Vec<char>, start: usize, end: usize) -> (bounds: (usize, usize))
    requires
        start <= end <= chars@.len(),
    ensures
        start <= bounds.0 <= bounds.1 <= end,
        chars@.subrange(bounds.0 as int, end as int) == trim_start(
            chars@.subrange(start as int, end as int),
        ),
        chars@.subrange(bounds.0 as int, bounds.1 as int) == trimmed(
            chars@.subrange(start as int, end as int),
        ),
{
    let mut a: usize = start;
    while a < end && is_space_char(chars[a])
        invariant
            start <= a <= end <= chars@.len(),
            trim_start(chars@.subrange(start as int, end as int)) == trim_start(
                chars@.subrange(a as int, end as int),
            ),
        decreases end - a,
    {
        assert(chars@.subrange(a as int, end as int).drop_first() =~= chars@.subrange(
            a + 1,
            end as int,
        ));
        a += 1;
    }
    let mut b: usize = end;
    while b > a && is_space_char(chars[b - 1])
        invariant
            a <= b <= end <= chars@.len(),
            trim_end(chars@.subrange(a as int, end as int)) == trim_end(
                chars@.subrange(a as int, b as int),
            ),
        decreases b - a,
    {
        assert(chars@.subrange(a as int, b as int).drop_last() =~= chars@.subrange(
            a as int,
            b - 1,
        ));
        b -= 1;
    }
    (a, b)
}

/// The tokens of the fields that end before `end + 1` are those of the
/// fields that end before `start`, and the token of the field from `start`
/// to `end`.
pub(crate) proof fn lemma_next_field(text: Seq<char>, start: int, end: int, word: Seq<char>)
    requires
        is_field(text, start, end),
    ensures
        is_token_before(text, end + 1, word) <==> is_token_before(text, start, word) || (word.len()
            > 0 && word == trimmed(text.subrange(start, end))),
{
    if is_token_before(text, end + 1, word) {
        let (from, to) = choose|from: int, to: int|
            #![trigger is_field(text, from, to)]
            is_field(text, from, to) && to < end + 1 && word == trimmed(text.subrange(from, to));
        if to >= start {
            lemma_field_is(text, start, end, from, to);
        }
    }
    if is_token_before(text, start, word) {
        let (from, to) = choose|from: int, to: int|
            #![trigger is_field(text, from, to)]
            is_field(text, from, to) && to < start && word == trimmed(text.subrange(from, to));
        assert(is_field(text, from, to) && to < end + 1);
    }
}

/// Every field ends at the end of the text or before it.
pub(crate) proof fn lemma_all_fields(text: Seq<char>, word: Seq<char>)
    ensures
        is_token_before(text, text.len() as int + 1, word) <==> is_token(text, word),
{
    if is_token(text, word) {
        let (from, to) = choose|from: int, to: int|
            #![trigger is_field(text, from, to)]
            is_field(text, from, to) && word == trimmed(text.subrange(from, to));
        assert(is_field(text, from, to) && to < text.len() + 1);
    }
}

impl Trie {
    /// Inserts every word of the vocabulary text `text`: what stands
    /// between commas and line ends, without the white space around it,
    /// wherever something is left.
    pub fn load_from_txt(&mut self, text: &str)
        requires
            old(self).wf(),
        ensures
            final(self).wf(),
            final(self)@ == old(self)@.union(tokens(text@)),
    {
        let chars = chars_of(text);
        let n = chars.len();
        let ghost before = self@;
        let ghost mut limit: int = 0;
        let mut start: usize = 0;
        let mut done = false;
        while !done
            invariant
                self.wf(),
                chars@ == text@,
                n == chars@.len(),
                !done ==> start <= n && (start == 0 || is_separator(chars@[start - 1])),
                limit == if done {
                    n + 1
                } else {
                    start as int
                },
                forall|w: Seq<char>|
                    self@.contains(w) <==> before.contains(w) || is_token_before(text@, limit, w),
            decreases
                    if done {
                        0
                    } else {
                        n - start + 1
                    },
        {
            let end = field_end(&chars, start);
            let (a, b) = trim_bounds(&chars, start, end);
            let ghost held = self@;
            assert(forall|w: Seq<char>|
                held.contains(w) <==> before.contains(w) || is_token_before(text@, start as int, w));
            if a < b {
                let token = string_of(&chars, a, b);
                self.insert(token.as_str());
            }
            proof {
                assert(text@.subrange(a as int, b as int).len() == b - a);
                assert forall|w: Seq<char>|
                    self@.contains(w) <==> before.contains(w) || is_token_before(
                        text@,
                        end + 1,
                        w,
                    ) by {
                    lemma_next_field(text@, start as int, end as int, w);
                }
                limit = end + 1;
            }
            if end == n {
                done = true;
            } else {
                start = end + 1;
            }
        }
        proof {
            assert forall|w: Seq<char>| self@.contains(w) <==> before.contains(w) || tokens(
                text@,
            ).contains(w) by {
                lemma_all_fields(text@, w);
            }
            assert(self@ =~= before.union(tokens(text@)));
        }
    }
}

} // verus!
