//! Input validation and small shared helpers.

use vstd::prelude::*;

use crate::letters::{ascii_to_string, is_upper_char, is_word, upper_char, upper_seq, LEN};

verus! {

/// Why an input or an option was rejected.
#[derive(Debug, PartialEq, Eq, Structural, Clone, Copy)]
pub enum GameError {
    /// The word is not exactly `LEN` letters long.
    InvalidLength,
    /// The word holds something besides ASCII letters.
    InvalidAlphabet,
    /// The word is not in the accepted word list.
    NotInList,
    /// A secret word is missing from the acceptable-guess list.
    FinalNotAcceptable,
    /// A fixed word cannot be combined with random mode.
    WordWithRandom,
}

/// Raises `*a` to `b` when `b` is the larger of the two.
pub fn apmax(a: &mut i8, b: i8)
    ensures
        *final(a) == if *old(a) < b {
            b
        } else {
            *old(a)
        },
{
    if *a < b {
        *a = b;
    }
}

/// The background color name a board cell shows for a numeric color.
pub open spec fn background_name(id: i8) -> Seq<char> {
    if id == 1 {
        "red"@
    } else if id == 2 {
        "yellow"@
    } else if id == 3 {
        "green"@
    } else {
        "default"@
    }
}

/// Background color name of a numeric color.
pub fn id2background(id: i8) -> (r: &'static str)
    requires
        0 <= id <= 3,
    ensures
        r@ == background_name(id),
{
    match id {
        1 => "red",
        2 => "yellow",
        3 => "green",
        _ => "default",
    }
}

/// Word `w` occurs among the first `n` entries of `ws`.
pub open spec fn in_list(ws: Seq<String>, n: int, w: Seq<char>) -> bool
    decreases n,
{
    n > 0 && (ws[n - 1]@ == w || in_list(ws, n - 1, w))
}

/// An entry among the first `n` witnesses its own word.
pub proof fn lemma_in_list_at(ws: Seq<String>, n: int, i: int)
    requires
        0 <= i < n,
    ensures
        in_list(ws, n, ws[i]@),
    decreases n,
{
    if i < n - 1 {
        lemma_in_list_at(ws, n - 1, i);
    }
}

/// A word equal to no entry does not occur.
pub proof fn lemma_not_in_list(ws: Seq<String>, n: int, w: Seq<char>)
    requires
        0 <= n,
        forall|j: int| 0 <= j < n ==> (#[trigger] ws[j]@) != w,
    ensures
        !in_list(ws, n, w),
    decreases n,
{
    if n > 0 {
        lemma_not_in_list(ws, n - 1, w);
    }
}

/// Whether word `w` occurs in `ws`.
#[verifier::loop_isolation(false)]
pub fn contains_word(ws: &Vec<String>, w: &String) -> (r: bool)
    ensures
        r == in_list(ws@, ws@.len() as int, w@),
{
    let mut i: usize = 0;
    while i < ws.len()
        invariant
            i <= ws@.len(),
            forall|j: int| 0 <= j < i ==> (#[trigger] ws@[j]@) != w@,
        decreases ws@.len() - i,
    {
        if ws[i].eq(w) {
            proof {
                lemma_in_list_at(ws@, ws@.len() as int, i as int);
            }
            return true;
        }
        i += 1;
    }
    proof {
        lemma_not_in_list(ws@, ws@.len() as int, w@);
    }
    false
}

/// Validates one line of player input: raises it to uppercase and checks
/// its length, its alphabet and, when a list is given, its membership
/// there, in that order.
#[verifier::loop_isolation(false)]
pub fn read_word(line: &str, words: Option<&Vec<String>>) -> (r: Result<String, GameError>)
    ensures
        (r is Ok) == (upper_seq(line@).len() == LEN && is_word(upper_seq(line@)) && (match words {
            Some(ws) => in_list(ws@, ws@.len() as int, upper_seq(line@)),
            None => true,
        })),
        r is Ok ==> (r->Ok_0)@ == upper_seq(line@),
        (r == Result::<String, GameError>::Err(GameError::InvalidLength)) == (upper_seq(
            line@,
        ).len() != LEN),
        (r == Result::<String, GameError>::Err(GameError::InvalidAlphabet)) == (upper_seq(
            line@,
        ).len() == LEN && !is_word(upper_seq(line@))),
        (r == Result::<String, GameError>::Err(GameError::NotInList)) == (upper_seq(line@).len()
            == LEN && is_word(upper_seq(line@)) && (match words {
            Some(ws) => !in_list(ws@, ws@.len() as int, upper_seq(line@)),
            None => false,
        })),
{
    let n = line.unicode_len();
    proof {
        assert(upper_seq(line@).len() == line@.len());
    }
    if n != LEN {
        return Err(GameError::InvalidLength);
    }
    let mut up: Vec<u8> = Vec::new();
    let mut i: usize = 0;
    while i < LEN
        invariant
            i <= LEN,
            up@.len() == i,
            forall|j: int|
                0 <= j < i ==> (#[trigger] (up@[j] as u32)) == upper_char(line@[j]) as u32,
            forall|j: int| 0 <= j < i ==> 65 <= #[trigger] up@[j] <= 90,
        decreases LEN - i,
    {
        let c = line.get_char(i);
        let u = c as u32;
        proof {
            vstd::utf8::char_is_scalar(c);
        }
        if 97 <= u && u <= 122 {
            up.push((u - 32) as u8);
        } else if 65 <= u && u <= 90 {
            up.push(u as u8);
        } else {
            proof {
                assert(upper_seq(line@)[i as int] == upper_char(line@[i as int]));
                assert(!is_upper_char(upper_char(line@[i as int])));
            }
            return Err(GameError::InvalidAlphabet);
        }
        i += 1;
    }
    let w = ascii_to_string(up);
    proof {
        assert forall|j: int| 0 <= j < LEN implies #[trigger] w@[j] == upper_seq(line@)[j] by {
            vstd::utf8::char_u32_cast(w@[j], w@[j] as u32);
            vstd::utf8::char_u32_cast(upper_char(line@[j]), w@[j] as u32);
        }
        assert(w@ =~= upper_seq(line@));
        assert(is_word(w@));
    }
    match words {
        None => Ok(w),
        Some(ws) => {
            if contains_word(ws, &w) {
                Ok(w)
            } else {
                Err(GameError::NotInList)
            }
        },
    }
}

/// Owned words from a borrowed list.
#[verifier::loop_isolation(false)]
pub fn from_arr(arr: &[&str]) -> (r: Vec<String>)
    ensures
        r@.len() == arr@.len(),
        forall|i: int| 0 <= i < arr@.len() ==> (#[trigger] r@[i]@) == arr@[i]@,
{
    let mut r: Vec<String> = Vec::new();
    let mut i: usize = 0;
    while i < arr.len()
        invariant
            i <= arr@.len(),
            r@.len() == i,
            forall|j: int| 0 <= j < i ==> (#[trigger] r@[j]@) == arr@[j]@,
        decreases arr@.len() - i,
    {
        r.push(String::from_str(arr[i]));
        i += 1;
    }
    r
}

} // verus!
