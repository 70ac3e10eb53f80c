//! Characters, words and letter counting.
//!
//! The game plays over five-letter words written in the uppercase ASCII
//! alphabet. This module defines what a word is, how lowercase input is
//! raised to uppercase, and how often a letter occurs in a word.

use vstd::prelude::*;

verus! {

/// Number of letters in the alphabet.
pub const ALPHAS: usize = 26;

/// Length of every secret and every guess.
pub const LEN: usize = 5;

/// Number of guesses a round allows.
pub const ROUNDS: usize = 6;

/// `c` is an uppercase ASCII letter.
pub open spec fn is_upper_char(c: char) -> bool {
    65 <= c as u32 <= 90
}

/// `s` is a playable word: exactly `LEN` uppercase ASCII letters.
pub open spec fn is_word(s: Seq<char>) -> bool {
    &&& s.len() == LEN
    &&& forall|i: int| 0 <= i < s.len() ==> is_upper_char(#[trigger] s[i])
}

/// ASCII uppercasing of one character; anything but `a`..`z` is unchanged.
pub open spec fn upper_char(c: char) -> char {
    if 97 <= c as u32 <= 122 {
        (((c as u32) - 32) as u32) as char
    } else {
        c
    }
}

/// ASCII uppercasing of a character sequence.
pub open spec fn upper_seq(s: Seq<char>) -> Seq<char> {
    s.map_values(|c: char| upper_char(c))
}

/// Alphabet index of an uppercase letter: `A` is 0, `Z` is 25.
pub open spec fn alpha_of(c: char) -> int {
    c as u32 - 65
}

/// The uppercase letter with alphabet index `a`.
pub open spec fn letter_at(a: int) -> char {
    ((a + 65) as u32) as char
}

/// How often `c` occurs among the first `n` characters of `s`.
pub open spec fn count_upto(s: Seq<char>, c: char, n: int) -> int
    decreases n,
{
    if n <= 0 {
        0
    } else {
        count_upto(s, c, n - 1) + if s[n - 1] == c {
            1int
        } else {
            0int
        }
    }
}

/// How often `c` occurs in `s`.
pub open spec fn count_in(s: Seq<char>, c: char) -> int {
    count_upto(s, c, s.len() as int)
}

/// Letter indexing round-trips for alphabet indexes.
pub proof fn lemma_letter_at_alpha(a: int)
    requires
        0 <= a < 26,
    ensures
        is_upper_char(letter_at(a)),
        alpha_of(letter_at(a)) == a,
{
}

/// Alphabet indexing round-trips for uppercase letters.
pub proof fn lemma_alpha_of_letter(c: char)
    requires
        is_upper_char(c),
    ensures
        0 <= alpha_of(c) < 26,
        letter_at(alpha_of(c)) == c,
{
    vstd::utf8::char_u32_cast(c, c as u32);
}

/// Counts lie between zero and the prefix length.
pub proof fn lemma_count_upto_bounds(s: Seq<char>, c: char, n: int)
    requires
        0 <= n <= s.len(),
    ensures
        0 <= count_upto(s, c, n) <= n,
    decreases n,
{
    if n > 0 {
        lemma_count_upto_bounds(s, c, n - 1);
    }
}

/// Builds a `String` out of ASCII bytes.
///
/// Relies on `String::from_utf8`: a sequence of bytes below 128 is valid
/// UTF-8 and decodes to one character per byte, each with the byte's value.
#[verifier::external_body]
pub(crate) fn ascii_to_string(v: Vec<u8>) -> (r: String)
    requires
        forall|i: int| 0 <= i < v@.len() ==> v@[i] < 128,
    ensures
        r@.len() == v@.len(),
        forall|i: int| 0 <= i < v@.len() ==> #[trigger] (r@[i] as u32) == v@[i] as u32,
{
    String::from_utf8(v).unwrap()
}

} // verus!
