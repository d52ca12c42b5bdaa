//! Which headwords are kept.
use vstd::prelude::*;

use crate::grammar::{
    char_is_digit, char_is_punct, char_is_space, head_word, is_digit, is_license_line, is_punct,
    is_space, line_is_license,
};

verus! {

/// Whether `w` holds a decimal digit.
pub open spec fn has_digit(w: Seq<char>) -> bool {
    exists|i: int| 0 <= i < w.len() && is_digit(#[trigger] w[i])
}

/// Whether `w` holds punctuation or whitespace.
pub open spec fn has_break(w: Seq<char>) -> bool {
    exists|i: int| 0 <= i < w.len() && (is_punct(#[trigger] w[i]) || is_space(w[i]))
}

/// What decides whether a headword is kept.
pub struct FilterPolicy {
    /// The shortest length kept, where `char_counts` is empty.
    pub min_chars: usize,
    /// The longest length kept, where `char_counts` is empty.
    pub max_chars: usize,
    /// The lengths kept; where empty, the range `min_chars..=max_chars` decides.
    pub char_counts: Vec<usize>,
    /// Keep words that hold a digit.
    pub keep_numbers: bool,
    /// Keep only words without punctuation and whitespace.
    pub only_whole_words: bool,
}

impl FilterPolicy {
    /// Whether a word of `n` characters has an accepted length.
    pub open spec fn length_accepted(&self, n: int) -> bool {
        if self.char_counts.len() > 0 {
            exists|k: int| 0 <= k < self.char_counts.len() && self.char_counts@[k] as int == n
        } else {
            self.min_chars <= n && n <= self.max_chars
        }
    }

    /// Whether the headword `w` is kept.
    pub open spec fn accepts_word(&self, w: Seq<char>) -> bool {
        &&& (self.keep_numbers || !has_digit(w))
        &&& (!self.only_whole_words || !has_break(w))
        &&& self.length_accepted(w.len() as int)
    }

    /// Whether an index line contributes its headword.
    pub open spec fn accepts_line(&self, line: Seq<char>) -> bool {
        !is_license_line(line) && self.accepts_word(head_word(line))
    }

    /// The default policy: lengths 0 to 45, numbers left out, any word shape.
    pub fn new() -> (r: FilterPolicy)
        ensures
            r.min_chars == 0,
            r.max_chars == 45,
            r.char_counts@.len() == 0,
            !r.keep_numbers,
            !r.only_whole_words,
    {
        FilterPolicy {
            min_chars: 0,
            max_chars: 45,
            char_counts: Vec::new(),
            keep_numbers: false,
            only_whole_words: false,
        }
    }

    /// Whether the headword `w` is kept.
    pub fn keeps_word(&self, w: &Vec<char>) -> (r: bool)
        ensures
            r == self.accepts_word(w@),
    {
        let mut digit: bool = false;
        let mut broken: bool = false;
        for i in 0..w.len()
            invariant
                digit == exists|j: int| 0 <= j < i && is_digit(#[trigger] w@[j]),
                broken == exists|j: int|
                    0 <= j < i && (is_punct(#[trigger] w@[j]) || is_space(w@[j])),
        {
            if char_is_digit(w[i]) {
                digit = true;
            }
            if char_is_punct(w[i]) || char_is_space(w[i]) {
                broken = true;
            }
        }
        if digit && !self.keep_numbers {
            return false;
        }
        if broken && self.only_whole_words {
            return false;
        }
        let n: usize = w.len();
        if self.char_counts.len() > 0 {
            let mut found: bool = false;
            for k in 0..self.char_counts.len()
                invariant
                    found == exists|j: int| 0 <= j < k && self.char_counts@[j] as int == n,
            {
                if self.char_counts[k] == n {
                    found = true;
                }
            }
            found
        } else {
            self.min_chars <= n && n <= self.max_chars
        }
    }

    /// Whether an index line contributes its headword; `word` is that headword.
    pub fn keeps_line(&self, line: &Vec<char>, word: &Vec<char>) -> (r: bool)
        requires
            word@ == head_word(line@),
        ensures
            r == self.accepts_line(line@),
    {
        !line_is_license(line) && self.keeps_word(word)
    }
}

/// Without a set of lengths, a word of `min_chars` or of `max_chars`
/// characters passes the length rule, and one a character shorter than
/// `min_chars` or longer than `max_chars` is rejected.
pub proof fn lemma_length_boundaries(policy: FilterPolicy, w: Seq<char>)
    requires
        policy.char_counts@.len() == 0,
        policy.keep_numbers || !has_digit(w),
        !policy.only_whole_words || !has_break(w),
    ensures
        policy.min_chars <= policy.max_chars && (w.len() == policy.min_chars || w.len() == policy.max_chars)
            ==> policy.accepts_word(w),
        w.len() + 1 == policy.min_chars ==> !policy.accepts_word(w),
        w.len() == policy.max_chars + 1 ==> !policy.accepts_word(w),
{
}

} // verus!
