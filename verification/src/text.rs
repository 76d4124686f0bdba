//! Text helpers over characters.

use vstd::prelude::*;
use vstd::string::StringExecFns;

verus! {

/// `String::push` appends one character.
pub assume_specification[ String::push ](s: &mut String, c: char)
    ensures
        final(s)@ == old(s)@.push(c),
;

/// The characters of `s`, in order.
pub fn chars_of(s: &str) -> (chars: Vec<char>)
    ensures
        chars@ == s@,
{
    let mut chars: Vec<char> = Vec::new();
    for c in it: s.chars()
        invariant
            it.seq() == s@,
            chars@ == s@.take(it.index()),
    {
        chars.push(c);
        proof {
            assert(s@.take(it.index() + 1) =~= s@.take(it.index()).push(c));
        }
    }
    proof {
        assert(s@.take(s@.len() as int) =~= s@);
    }
    chars
}

/// The text that `chars` spell.
pub fn text_of(chars: &[char]) -> (s: String)
    ensures
        s@ == chars@,
{
    let mut s = String::new();
    let mut i: usize = 0;
    while i < chars.len()
        invariant
            i <= chars@.len(),
            s@ == chars@.take(i as int),
        decreases chars@.len() - i,
    {
        s.push(chars[i]);
        proof {
            assert(chars@.take(i + 1) =~= chars@.take(i as int).push(chars@[i as int]));
        }
        i = i + 1;
    }
    proof {
        assert(chars@.take(chars@.len() as int) =~= chars@);
    }
    s
}

/// `start` and, behind it, `rest`.
pub(crate) fn phrase(start: &str, rest: &str) -> (text: String)
    ensures
        text@ == start@ + rest@,
{
    let mut text = start.to_owned();
    text.append(rest);
    text
}

/// Whether `pattern` stands in `text` at offset `at`.
pub open spec fn occurs_at<T>(text: Seq<T>, pattern: Seq<T>, at: int) -> bool {
    0 <= at && at + pattern.len() <= text.len() && text.subrange(at, at + pattern.len()) == pattern
}

/// Whether `pattern` stands anywhere in `text`.
pub open spec fn occurs<T>(text: Seq<T>, pattern: Seq<T>) -> bool {
    exists|at: int| #[trigger] occurs_at(text, pattern, at)
}

/// Whether `pattern` stands in `text` at offset `at`.
pub fn matches_at(text: &[char], pattern: &[char], at: usize) -> (found: bool)
    requires
        at <= text@.len(),
    ensures
        found == occurs_at(text@, pattern@, at as int),
{
    let len: usize = text.len();
    if pattern.len() > len - at {
        return false;
    }
    let mut i: usize = 0;
    while i < pattern.len()
        invariant
            i <= pattern@.len(),
            len == text@.len(),
            at + pattern@.len() <= text@.len(),
            forall|j: int| 0 <= j < i ==> text@[at + j] == #[trigger] pattern@[j],
        decreases pattern@.len() - i,
    {
        if text[at + i] != pattern[i] {
            proof {
                assert(text@.subrange(at as int, at + pattern@.len())[i as int] != pattern@[i as int]);
            }
            return false;
        }
        i = i + 1;
    }
    proof {
        assert(text@.subrange(at as int, at + pattern@.len()) =~= pattern@);
    }
    true
}

/// Whether `text` begins with `prefix`.
pub fn has_prefix(text: &[char], prefix: &str) -> (found: bool)
    ensures
        found == prefix@.is_prefix_of(text@),
{
    let pattern = chars_of(prefix);
    let found = matches_at(text, pattern.as_slice(), 0);
    proof {
        assert(0 + prefix@.len() == prefix@.len());
    }
    found
}

/// Whether `pattern` stands anywhere in `text`.
pub fn contains(text: &[char], pattern: &str) -> (found: bool)
    ensures
        found == occurs(text@, pattern@),
{
    let pat = chars_of(pattern);
    let mut at: usize = 0;
    while at < text.len()
        invariant
            at <= text@.len(),
            pat@ == pattern@,
            forall|k: int| 0 <= k < at ==> !#[trigger] occurs_at(text@, pattern@, k),
        decreases text@.len() - at,
    {
        if matches_at(text, pat.as_slice(), at) {
            return true;
        }
        at = at + 1;
    }
    matches_at(text, pat.as_slice(), text.len())
}

/// A pattern occurs exactly where the text, cut at it, is something, the pattern
/// and something again, wherever that is.
pub proof fn law_occurs_anywhere<T>(before: Seq<T>, pattern: Seq<T>, after: Seq<T>)
    ensures
        occurs(before + pattern + after, pattern),
        forall|text: Seq<T>| #[trigger]
            occurs(text, pattern) ==> exists|at: int|
                0 <= at && at + pattern.len() <= text.len() && #[trigger] text.subrange(
                    at,
                    at + pattern.len(),
                ) == pattern,
{
    let text = before + pattern + after;
    let at = before.len() as int;
    assert(text.subrange(at, at + pattern.len()) =~= pattern);
    assert(occurs_at(text, pattern, at));
    assert forall|other: Seq<T>| #[trigger] occurs(other, pattern) implies exists|k: int|
        0 <= k && k + pattern.len() <= other.len() && #[trigger] other.subrange(
            k,
            k + pattern.len(),
        ) == pattern by {
        let k = choose|k: int| occurs_at(other, pattern, k);
        assert(other.subrange(k, k + pattern.len()) == pattern);
    }
}

} // verus!
