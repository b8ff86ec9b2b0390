//! Title Case for display: `arbitrumSepolia` is shown as `Arbitrum Sepolia`.

use crate::matching::{regex_replace_all, replace_all};
use crate::text::{from_chars, to_chars};
use crate::unicode::{char_is_whitespace, char_to_uppercase, is_whitespace, uppercase_of};
use vstd::prelude::*;

verus! {

/// A lower-case letter or a digit directly before an upper-case letter: the
/// place where a camel-case name starts a new word.
pub const HUMP_PATTERN: &'static str = "([a-z0-9])([A-Z])";

/// What a hump is replaced by: its two characters with a space between them.
pub const HUMP_REPLACEMENT: &'static str = "$1 $2";

/// The words of a text: its longest runs of characters that are no white
/// space, in order.
pub open spec fn words_of(s: Seq<char>) -> Seq<Seq<char>>
    decreases s.len(),
{
    if s.len() == 0 {
        Seq::empty()
    } else {
        let front = s.drop_last();
        let words = words_of(front);
        if is_whitespace(s.last()) {
            words
        } else if front.len() > 0 && !is_whitespace(front.last()) && words.len() > 0 {
            words.drop_last().push(words.last().push(s.last()))
        } else {
            words.push(seq![s.last()])
        }
    }
}

/// A word with its first character in upper case.
pub open spec fn capitalized(word: Seq<char>) -> Seq<char> {
    if word.len() == 0 {
        word
    } else {
        uppercase_of(word[0]) + word.skip(1)
    }
}

/// Words joined by single spaces.
pub open spec fn joined(words: Seq<Seq<char>>) -> Seq<char>
    decreases words.len(),
{
    if words.len() == 0 {
        Seq::empty()
    } else if words.len() == 1 {
        words[0]
    } else {
        joined(words.drop_last()) + seq![' '] + words.last()
    }
}

/// The words of a text, each capitalized, joined by single spaces.
pub open spec fn title_words(s: Seq<char>) -> Seq<char> {
    joined(words_of(s).map_values(|word: Seq<char>| capitalized(word)))
}

/// A text with a space put into each of its humps, as the matcher does it;
/// the text itself where the matcher does not take the hump pattern.
pub open spec fn spaced(s: Seq<char>) -> Seq<char> {
    match regex_replace_all(HUMP_PATTERN@, s, HUMP_REPLACEMENT@) {
        Some(replaced) => replaced,
        None => s,
    }
}

/// The Title Case form of a camel-case text.
pub open spec fn title_case(s: Seq<char>) -> Seq<char> {
    title_words(spaced(s))
}

/// The texts that a list of words holds.
pub open spec fn word_texts(words: Seq<Vec<char>>) -> Seq<Seq<char>> {
    words.map_values(|word: Vec<char>| word@)
}

/// Splits a text into its words.
pub fn split_words(text: &str) -> (words: Vec<Vec<char>>)
    ensures
        word_texts(words@) == words_of(text@),
{
    let chars = to_chars(text);
    let mut words: Vec<Vec<char>> = Vec::new();
    let mut current: Vec<char> = Vec::new();
    let mut in_word = false;
    let mut i: usize = 0;
    proof {
        assert(chars@.take(0) =~= Seq::<char>::empty());
        assert(word_texts(words@) =~= Seq::<Seq<char>>::empty());
    }
    while i < chars.len()
        invariant
            i <= chars.len(),
            in_word <==> (i > 0 && !is_whitespace(chars@[i - 1])),
            in_word ==> words_of(chars@.take(i as int)) == word_texts(words@).push(current@),
            !in_word ==> words_of(chars@.take(i as int)) == word_texts(words@),
        decreases chars.len() - i,
    {
        let c = chars[i];
        let ghost before = chars@.take(i as int);
        let ghost after = chars@.take(i + 1);
        let ghost done = word_texts(words@);
        proof {
            assert(after.drop_last() =~= before);
            assert(after.last() == c);
            if i > 0 {
                assert(before.last() == chars@[i - 1]);
            }
        }
        if char_is_whitespace(c) {
            if in_word {
                words.push(current);
                current = Vec::new();
                proof {
                    assert(word_texts(words@) =~= done.push(words@[words.len() - 1]@));
                }
            }
            in_word = false;
        } else {
            if in_word {
                proof {
                    let w = done.push(current@);
                    assert(w.drop_last() =~= done);
                    assert(w.last() == current@);
                }
                current.push(c);
            } else {
                current = Vec::new();
                current.push(c);
                proof {
                    assert(current@ =~= seq![c]);
                    if i > 0 && words_of(before).len() > 0 {
                        assert(is_whitespace(before.last()));
                    }
                }
            }
            in_word = true;
        }
        i += 1;
    }
    proof {
        assert(chars@.take(chars.len() as int) =~= chars@);
    }
    if in_word {
        let ghost done = word_texts(words@);
        words.push(current);
        proof {
            assert(word_texts(words@) =~= done.push(words@[words.len() - 1]@));
        }
    }
    words
}

/// Capitalizes each word of a text and joins the words by single spaces.
pub fn capitalize_words(text: &str) -> (title: String)
    ensures
        title@ == title_words(text@),
{
    let words = split_words(text);
    let ghost target = words_of(text@).map_values(|word: Seq<char>| capitalized(word));
    let mut out: Vec<char> = Vec::new();
    let mut i: usize = 0;
    proof {
        assert(target.take(0) =~= Seq::<Seq<char>>::empty());
    }
    while i < words.len()
        invariant
            i <= words.len(),
            word_texts(words@) == words_of(text@),
            target == words_of(text@).map_values(|word: Seq<char>| capitalized(word)),
            out@ == joined(target.take(i as int)),
        decreases words.len() - i,
    {
        let word = &words[i];
        let ghost before = out@;
        proof {
            assert(target.take(i + 1).drop_last() =~= target.take(i as int));
            assert(target.take(i + 1).last() == capitalized(word@));
            assert(word_texts(words@)[i as int] == word@);
        }
        if i > 0 {
            out.push(' ');
        }
        let ghost start = out@;
        proof {
            if i > 0 {
                assert(start =~= before + seq![' ']);
            }
        }
        if word.len() > 0 {
            let upper = char_to_uppercase(word[0]);
            let mut k: usize = 0;
            while k < upper.len()
                invariant
                    k <= upper.len(),
                    out@ == start + upper@.take(k as int),
                decreases upper.len() - k,
            {
                out.push(upper[k]);
                proof {
                    assert(start + upper@.take(k + 1) =~= (start + upper@.take(k as int)).push(
                        upper@[k as int],
                    ));
                }
                k += 1;
            }
            proof {
                assert(upper@.take(upper.len() as int) =~= upper@);
            }
            let ghost middle = out@;
            let mut j: usize = 1;
            while j < word.len()
                invariant
                    1 <= j <= word.len(),
                    out@ == middle + word@.subrange(1, j as int),
                decreases word.len() - j,
            {
                out.push(word[j]);
                proof {
                    assert(middle + word@.subrange(1, j + 1) =~= (middle + word@.subrange(
                        1,
                        j as int,
                    )).push(word@[j as int]));
                }
                j += 1;
            }
            proof {
                assert(word@.subrange(1, word.len() as int) =~= word@.skip(1));
                assert(out@ =~= start + capitalized(word@));
            }
        } else {
            proof {
                assert(out@ =~= start + capitalized(word@));
            }
        }
        proof {
            if i == 0 {
                assert(target.take(1).len() == 1);
                assert(out@ =~= capitalized(word@));
            } else {
                assert(out@ =~= before + seq![' '] + capitalized(word@));
            }
        }
        i += 1;
    }
    proof {
        assert(target.take(words.len() as int) =~= target);
    }
    from_chars(&out)
}

/// Turns a camel-case text into Title Case: a space goes into each hump, and
/// each word that results starts in upper case.
pub fn camel_to_title_case(text: &str) -> (title: String)
    ensures
        title@ == title_case(text@),
{
    match replace_all(HUMP_PATTERN, text, HUMP_REPLACEMENT) {
        Some(replaced) => capitalize_words(replaced.as_str()),
        None => capitalize_words(text),
    }
}

} // verus!
