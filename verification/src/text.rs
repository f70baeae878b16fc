//! Strings as sequences of characters.

use vstd::prelude::*;

verus! {

/// `s` ends with `suffix`.
pub open spec fn ends_with(s: Seq<char>, suffix: Seq<char>) -> bool {
    s.len() >= suffix.len() && s.skip(s.len() - suffix.len()) == suffix
}

/// The characters of `s`.
pub fn chars_of(s: &str) -> (text: Vec<char>)
    ensures
        text@ == s@,
{
    let mut text: Vec<char> = Vec::new();
    for c in it: s.chars()
        invariant
            it.seq() == s@,
            text@ == s@.take(it.index() as int),
    {
        text.push(c);
    }
    text
}

/// Tells whether `text` ends with `last`.
pub(crate) fn ends_with_char(text: &Vec<char>, last: char) -> (found: bool)
    ensures
        found == ends_with(text@, seq![last]),
{
    let len: usize = text.len();
    let found: bool = len >= 1 && text[len - 1] == last;
    proof {
        let s = text@;
        if len >= 1 {
            assert(s.skip(s.len() - 1) =~= seq![s[len - 1]]);
            assert(seq![s[len - 1]][0] == s[len - 1]);
        }
    }
    found
}

/// Tells whether `text` ends with `before` followed by `last`.
pub(crate) fn ends_with_pair(text: &Vec<char>, before: char, last: char) -> (found: bool)
    ensures
        found == ends_with(text@, seq![before, last]),
{
    let len: usize = text.len();
    let found: bool = len >= 2 && text[len - 2] == before && text[len - 1] == last;
    proof {
        let s = text@;
        if len >= 2 {
            let tail = s.skip(s.len() - 2);
            assert(tail =~= seq![s[len - 2], s[len - 1]]);
            assert(seq![s[len - 2], s[len - 1]][0] == s[len - 2]);
            assert(seq![s[len - 2], s[len - 1]][1] == s[len - 1]);
        }
    }
    found
}

/// `c` is white space, as Unicode defines it.
pub open spec fn is_whitespace(c: char) -> bool {
    ||| '\u{9}' <= c && c <= '\u{d}'
    ||| c == ' '
    ||| c == '\u{85}'
    ||| c == '\u{a0}'
    ||| c == '\u{1680}'
    ||| '\u{2000}' <= c && c <= '\u{200a}'
    ||| c == '\u{2028}'
    ||| c == '\u{2029}'
    ||| c == '\u{202f}'
    ||| c == '\u{205f}'
    ||| c == '\u{3000}'
}

/// `s` without the white space that it begins with.
pub open spec fn trim_start(s: Seq<char>) -> Seq<char>
    decreases s.len(),
{
    if s.len() > 0 && is_whitespace(s[0]) {
        trim_start(s.drop_first())
    } else {
        s
    }
}

/// `s` without the white space that it ends with.
pub open spec fn trim_end(s: Seq<char>) -> Seq<char>
    decreases s.len(),
{
    if s.len() > 0 && is_whitespace(s.last()) {
        trim_end(s.drop_last())
    } else {
        s
    }
}

/// `s` without the white space at its two ends.
pub open spec fn trim(s: Seq<char>) -> Seq<char> {
    trim_end(trim_start(s))
}

/// Tells whether `c` is white space.
pub fn is_space(c: char) -> (space: bool)
    ensures
        space == is_whitespace(c),
{
    ('\u{9}' <= c && c <= '\u{d}') || c == ' ' || c == '\u{85}' || c == '\u{a0}' || c
        == '\u{1680}' || ('\u{2000}' <= c && c <= '\u{200a}') || c == '\u{2028}' || c
        == '\u{2029}' || c == '\u{202f}' || c == '\u{205f}' || c == '\u{3000}'
}

/// Finds what is left of `text` without the white space at its two ends: the
/// place where it begins and the place where it ends.
pub(crate) fn trimmed(text: &Vec<char>) -> (ends: (usize, usize))
    ensures
        ends.0 <= ends.1 <= text.len(),
        text@.subrange(ends.0 as int, ends.1 as int) == trim(text@),
{
    let len: usize = text.len();
    let mut from: usize = 0;
    assert(text@.skip(0) =~= text@);
    while from < len && is_space(text[from])
        invariant
            from <= len == text.len(),
            trim_start(text@.skip(from as int)) == trim_start(text@),
        decreases len - from,
    {
        assert(text@.skip(from as int).drop_first() =~= text@.skip(from + 1));
        from += 1;
    }
    let mut to: usize = len;
    assert(text@.subrange(from as int, to as int) =~= text@.skip(from as int));
    while to > from && is_space(text[to - 1])
        invariant
            from <= to <= len == text.len(),
            trim_end(text@.subrange(from as int, to as int)) == trim(text@),
        decreases to,
    {
        assert(text@.subrange(from as int, to as int).drop_last() =~= text@.subrange(
            from as int,
            to - 1,
        ));
        to -= 1;
    }
    (from, to)
}

/// Tells whether `text` holds `word` from `from` up to `to`.
pub(crate) fn segment_is(text: &Vec<char>, from: usize, to: usize, word: &str) -> (same: bool)
    requires
        from <= to <= text.len(),
    ensures
        same == (text@.subrange(from as int, to as int) == word@),
{
    let letters: Vec<char> = chars_of(word);
    if letters.len() != to - from {
        return false;
    }
    let mut i: usize = 0;
    while i < letters.len()
        invariant
            i <= letters.len() == to - from,
            from <= to <= text.len(),
            letters@ == word@,
            forall|k: int| 0 <= k < i ==> text@[from + k] == letters@[k],
        decreases letters.len() - i,
    {
        if text[from + i] != letters[i] {
            assert(text@.subrange(from as int, to as int)[i as int] != word@[i as int]);
            return false;
        }
        i += 1;
    }
    assert(text@.subrange(from as int, to as int) =~= word@);
    true
}

} // verus!
