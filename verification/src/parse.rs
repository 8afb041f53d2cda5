//! Reading a pair of values written as `<left><separator><right>`.
//!
//! The text is cut at the first occurrence of the separator; each side is
//! handed to a reader supplied by the caller, and the pair exists only when
//! both sides were read.

use vstd::prelude::*;

verus! {

/// `text` is `left`, then the separator, then `right`, and the separator in
/// the middle is the first one in `text`.
pub open spec fn cut_at_first(
    text: Seq<char>,
    separator: char,
    left: Seq<char>,
    right: Seq<char>,
) -> bool {
    &&& !left.contains(separator)
    &&& text =~= left + seq![separator] + right
}

/// The pair made of two readings: present exactly when both succeeded.
pub open spec fn pair_of_spec<T, E>(left: Result<T, E>, right: Result<T, E>) -> Option<(T, T)> {
    match (left, right) {
        (Ok(l), Ok(r)) => Some((l, r)),
        _ => None,
    }
}

/// `pair` is a possible result of reading `s` with `read`: nothing when `s`
/// holds no separator, and otherwise the pair of what `read` made of the two
/// sides of the first separator.
pub open spec fn reads_as<T, E, R: Fn(&str) -> Result<T, E>>(
    read: R,
    s: &str,
    separator: char,
    pair: Option<(T, T)>,
) -> bool {
    if s@.contains(separator) {
        exists|left: &str, right: &str, l: Result<T, E>, r: Result<T, E>|
            {
                &&& cut_at_first(s@, separator, left@, right@)
                &&& read.ensures((left,), l)
                &&& read.ensures((right,), r)
                &&& pair == pair_of_spec(l, r)
            }
    } else {
        pair is None
    }
}

/// A text has at most one cut at its first separator.
pub proof fn lemma_cut_unique(
    text: Seq<char>,
    separator: char,
    left: Seq<char>,
    right: Seq<char>,
    other_left: Seq<char>,
    other_right: Seq<char>,
)
    requires
        cut_at_first(text, separator, left, right),
        cut_at_first(text, separator, other_left, other_right),
    ensures
        left == other_left,
        right == other_right,
{
    let i = left.len() as int;
    let j = other_left.len() as int;
    assert(text[i] == separator);
    assert(text[j] == separator);
    if i < j {
        assert(other_left[i] == text[i]);
    }
    if j < i {
        assert(left[j] == text[j]);
    }
    assert(left =~= text.subrange(0, i));
    assert(other_left =~= text.subrange(0, i));
    assert(right =~= text.subrange(i + 1, text.len() as int));
    assert(other_right =~= text.subrange(i + 1, text.len() as int));
}

/// A text that can be cut holds the separator, so a text without it has no cut.
pub proof fn lemma_cut_needs_separator(
    text: Seq<char>,
    separator: char,
    left: Seq<char>,
    right: Seq<char>,
)
    requires
        cut_at_first(text, separator, left, right),
    ensures
        text.contains(separator),
{
    assert(text[left.len() as int] == separator);
}

/// Position, counted in characters, of the first `separator` in `s`.
pub fn find_separator(s: &str, separator: char) -> (found: Option<usize>)
    ensures
        match found {
            Some(i) => {
                &&& i < s@.len()
                &&& s@[i as int] == separator
                &&& !s@.subrange(0, i as int).contains(separator)
            },
            None => !s@.contains(separator),
        },
{
    let n: usize = s.unicode_len();
    let mut i: usize = 0;
    for c in it: s.chars()
        invariant
            i == it.index(),
            n == s@.len(),
            it.seq() == s@,
            forall|j: int| 0 <= j < i ==> s@[j] != separator,
    {
        if c == separator {
            return Some(i);
        }
        i += 1;
    }
    None
}

/// Cuts `s` at its first `separator` into what stands before it and what
/// stands after it; the separator itself belongs to neither side.
pub fn split_pair<'a>(s: &'a str, separator: char) -> (parts: Option<(&'a str, &'a str)>)
    ensures
        match parts {
            Some((left, right)) => cut_at_first(s@, separator, left@, right@),
            None => !s@.contains(separator),
        },
{
    match find_separator(s, separator) {
        None => None,
        Some(index) => {
            let n: usize = s.unicode_len();
            let left = s.substring_char(0, index);
            let right = s.substring_char(index + 1, n);
            Some((left, right))
        },
    }
}

/// The pair made of two readings: present exactly when both succeeded.
pub fn pair_of<T, E>(left: Result<T, E>, right: Result<T, E>) -> (pair: Option<(T, T)>)
    ensures
        pair == pair_of_spec(left, right),
{
    match (left, right) {
        (Ok(l), Ok(r)) => Some((l, r)),
        _ => None,
    }
}

/// Reads `s` as two values separated by the first `separator`, each side
/// being read by `read`. There is no pair when the separator is missing or
/// when `read` fails on either side.
pub fn parse_pair<T, E, R: Fn(&str) -> Result<T, E>>(s: &str, separator: char, read: R) -> (pair:
    Option<(T, T)>)
    requires
        forall|left: &str, right: &str|
            cut_at_first(s@, separator, left@, right@) ==> read.requires((left,))
                && read.requires((right,)),
    ensures
        reads_as(read, s, separator, pair),
{
    match split_pair(s, separator) {
        None => None,
        Some((left, right)) => {
            proof {
                lemma_cut_needs_separator(s@, separator, left@, right@);
            }
            let l = read(left);
            let r = read(right);
            pair_of(l, r)
        },
    }
}

} // verus!
