//! Words of a text: maximal runs of characters that are not white space.

use vstd::prelude::*;
use vstd::std_specs::iter::IteratorSpec;
use vstd::string::StrSliceExecFns;

verus! {

/// Whether `c` has the Unicode property `White_Space`.
pub open spec fn is_whitespace(c: char) -> bool {
    let u = c as u32;
    (0x09 <= u <= 0x0D) || u == 0x20 || u == 0x85 || u == 0xA0 || u == 0x1680
        || (0x2000 <= u <= 0x200A) || u == 0x2028 || u == 0x2029 || u == 0x202F
        || u == 0x205F || u == 0x3000
}

/// Whether a word begins at position `i` of `s`: the character there is not
/// white space, and it is the first of `s` or follows white space.
pub open spec fn starts_word(s: Seq<char>, i: int) -> bool {
    &&& 0 <= i < s.len()
    &&& !is_whitespace(s[i])
    &&& (i == 0 || is_whitespace(s[i - 1]))
}

/// The number of positions among the first `n` of `s` at which a word begins.
pub open spec fn word_starts_before(s: Seq<char>, n: nat) -> nat
    decreases n,
{
    if n == 0 {
        0
    } else {
        word_starts_before(s, (n - 1) as nat) + if starts_word(s, n - 1) {
            1nat
        } else {
            0nat
        }
    }
}

/// The number of words in `s`.
pub open spec fn word_count(s: Seq<char>) -> nat {
    word_starts_before(s, s.len())
}

/// Decides `is_whitespace` for one character.
pub fn char_is_whitespace(c: char) -> (b: bool)
    ensures
        b == is_whitespace(c),
{
    let u: u32 = c as u32;
    (0x09 <= u && u <= 0x0D) || u == 0x20 || u == 0x85 || u == 0xA0 || u == 0x1680
        || (0x2000 <= u && u <= 0x200A) || u == 0x2028 || u == 0x2029 || u == 0x202F
        || u == 0x205F || u == 0x3000
}

/// Among the first `n` positions there are at most `n` word starts.
pub proof fn lemma_word_starts_bounded(s: Seq<char>, n: nat)
    ensures
        word_starts_before(s, n) <= n,
    decreases n,
{
    if n > 0 {
        lemma_word_starts_bounded(s, (n - 1) as nat);
    }
}

/// Counts the words of `text`.
pub fn count_words(text: &str) -> (count: usize)
    ensures
        count == word_count(text@),
{
    let len: usize = text.unicode_len();
    let mut chars = text.chars();
    let mut count: usize = 0;
    let mut in_word: bool = false;
    let ghost mut seen: nat = 0;
    proof {
        vstd::string::axiom_spec_iter(text);
    }
    loop
        invariant
            chars.obeys_prophetic_iter_laws(),
            chars.decrease() is Some,
            len == text@.len(),
            seen <= text@.len(),
            chars.remaining() == text@.subrange(seen as int, text@.len() as int),
            count == word_starts_before(text@, seen),
            in_word == (seen > 0 && !is_whitespace(text@[seen - 1])),
        ensures
            seen == text@.len(),
            count == word_starts_before(text@, seen),
        decreases chars.decrease()->0,
    {
        let ghost before = chars.remaining();
        match chars.next() {
            None => {
                break ;
            },
            Some(c) => {
                proof {
                    assert(before.len() > 0);
                    assert(c == text@[seen as int]);
                    assert(before.drop_first() == text@.subrange(
                        seen as int + 1,
                        text@.len() as int,
                    ));
                    lemma_word_starts_bounded(text@, seen);
                }
                let blank = char_is_whitespace(c);
                if !blank && !in_word {
                    count = count + 1;
                }
                in_word = !blank;
                proof {
                    seen = seen + 1;
                }
            },
        }
    }
    count
}

} // verus!
