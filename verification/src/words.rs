//! Word pools: the ordered list of secrets to play and the list of
//! acceptable guesses.

use vstd::prelude::*;

use rand::seq::SliceRandom;
use rand::SeedableRng;

use crate::letters::{is_word, upper_seq, LEN};
use crate::utils::{contains_word, in_list, read_word, GameError};

verus! {

/// The first problem a word-list scan finds among entries `i` and later:
/// a word of the wrong length, then a word with a foreign character.
pub open spec fn list_defect_from(ws: Seq<String>, i: int) -> Option<GameError>
    decreases ws.len() - i,
{
    if i < 0 || i >= ws.len() {
        None
    } else if upper_seq(ws[i]@).len() != LEN {
        Some(GameError::InvalidLength)
    } else if !is_word(upper_seq(ws[i]@)) {
        Some(GameError::InvalidAlphabet)
    } else {
        list_defect_from(ws, i + 1)
    }
}

/// The uppercased form of some entry among the first `n` of `ws` is `w`.
pub open spec fn upper_in_list(ws: Seq<String>, n: int, w: Seq<char>) -> bool
    decreases n,
{
    n > 0 && (upper_seq(ws[n - 1]@) == w || upper_in_list(ws, n - 1, w))
}

/// The first secret from entry `i` on whose uppercased form is missing
/// from the uppercased acceptable list.
pub open spec fn subset_defect_from(fins: Seq<String>, i: int, valid: Seq<String>) -> Option<
    GameError,
>
    decreases fins.len() - i,
{
    if i < 0 || i >= fins.len() {
        None
    } else if !upper_in_list(valid, valid.len() as int, upper_seq(fins[i]@)) {
        Some(GameError::FinalNotAcceptable)
    } else {
        subset_defect_from(fins, i + 1, valid)
    }
}

/// The first problem in building pools from the two lists: a malformed
/// secret, then a malformed acceptable word, then a secret missing from
/// the acceptable list.
pub open spec fn pools_defect(fins: Seq<String>, valid: Seq<String>) -> Option<GameError> {
    if list_defect_from(fins, 0) is Some {
        list_defect_from(fins, 0)
    } else if list_defect_from(valid, 0) is Some {
        list_defect_from(valid, 0)
    } else {
        subset_defect_from(fins, 0, valid)
    }
}

/// The word pools a session plays from.
pub struct Words {
    /// The secrets in play order; in random mode, shuffled by the seed.
    pub final_list: Vec<String>,
    /// The secrets in their given order, for membership checks.
    pub final_words: Vec<String>,
    /// Every acceptable guess word.
    pub valid: Vec<String>,
}

/// Membership among built uppercase entries is membership among the
/// uppercased inputs.
proof fn lemma_upper_in_congruent(built: Seq<String>, input: Seq<String>, n: int, w: Seq<char>)
    requires
        0 <= n,
        forall|j: int| 0 <= j < n ==> (#[trigger] built[j]@) == upper_seq(input[j]@),
    ensures
        in_list(built, n, w) == upper_in_list(input, n, w),
    decreases n,
{
    if n > 0 {
        lemma_upper_in_congruent(built, input, n - 1, w);
    }
}

/// A reordering of a list of words still holds words alone.
proof fn lemma_elements_still_words(a: Seq<String>, b: Seq<String>)
    requires
        a.to_multiset() == b.to_multiset(),
        forall|j: int| 0 <= j < b.len() ==> is_word((#[trigger] b[j])@),
    ensures
        forall|i: int| 0 <= i < a.len() ==> is_word((#[trigger] a[i])@),
{
    broadcast use vstd::seq_lib::group_to_multiset_ensures;

    assert forall|i: int| 0 <= i < a.len() implies is_word((#[trigger] a[i])@) by {
        assert(a.contains(a[i]));
        assert(b.to_multiset().count(a[i]) > 0);
        assert(b.contains(a[i]));
        let j = choose|j: int| 0 <= j < b.len() && b[j] == a[i];
        assert(is_word(b[j]@));
    }
}

/// Raises each word of `ws` to uppercase; the first malformed word
/// decides the error.
#[verifier::loop_isolation(false)]
fn upper_list(ws: &Vec<String>) -> (r: Result<Vec<String>, GameError>)
    ensures
        (r is Ok) == (list_defect_from(ws@, 0) is None),
        r is Err ==> Some(r->Err_0) == list_defect_from(ws@, 0),
        r is Ok ==> ({
            let out = r->Ok_0;
            &&& out@.len() == ws@.len()
            &&& forall|i: int| 0 <= i < ws@.len() ==> (#[trigger] out@[i]@) == upper_seq(ws@[i]@)
            &&& forall|i: int| 0 <= i < ws@.len() ==> is_word((#[trigger] out@[i])@)
        }),
{
    let mut out: Vec<String> = Vec::new();
    let mut i: usize = 0;
    while i < ws.len()
        invariant
            i <= ws@.len(),
            out@.len() == i,
            list_defect_from(ws@, 0) == list_defect_from(ws@, i as int),
            forall|j: int| 0 <= j < i ==> (#[trigger] out@[j]@) == upper_seq(ws@[j]@),
            forall|j: int| 0 <= j < i ==> is_word((#[trigger] out@[j])@),
        decreases ws@.len() - i,
    {
        match read_word(ws[i].as_str(), None) {
            Ok(u) => {
                out.push(u);
            },
            Err(e) => {
                proof {
                    assert(list_defect_from(ws@, i as int) == Some(e));
                }
                return Err(e);
            },
        }
        proof {
            assert(list_defect_from(ws@, i as int) == list_defect_from(ws@, i as int + 1));
        }
        i += 1;
    }
    Ok(out)
}

/// A copy of a word list.
#[verifier::loop_isolation(false)]
fn clone_words(v: &Vec<String>) -> (r: Vec<String>)
    ensures
        r@ == v@,
{
    let mut r: Vec<String> = Vec::new();
    let mut i: usize = 0;
    while i < v.len()
        invariant
            i <= v@.len(),
            r@ == v@.subrange(0, i as int),
        decreases v@.len() - i,
    {
        r.push(v[i].clone());
        proof {
            assert(r@ =~= v@.subrange(0, i as int + 1));
        }
        i += 1;
    }
    proof {
        assert(r@ =~= v@);
    }
    r
}

/// Reorders the secrets deterministically from the seed.
///
/// Relies on rand: `StdRng::seed_from_u64` builds a generator from the
/// seed, and `SliceRandom::shuffle` rearranges the slice in place,
/// neither adding nor dropping an element.
#[verifier::external_body]
fn shuffle_seeded(words: &mut Vec<String>, seed: u64)
    ensures
        final(words)@.len() == old(words)@.len(),
        final(words)@.to_multiset() == old(words)@.to_multiset(),
{
    let mut rng = rand::rngs::StdRng::seed_from_u64(seed);
    words.shuffle(&mut rng);
}

impl Words {
    /// Builds the pools: raises both lists to uppercase, rejects malformed
    /// words and secrets missing from the acceptable list, and, in random
    /// mode, shuffles the play order with the seed.
    #[verifier::loop_isolation(false)]
    pub fn new(
        final_list: Vec<String>,
        acceptable_list: Vec<String>,
        random: bool,
        seed: u64,
    ) -> (r: Result<Words, GameError>)
        ensures
            (r is Ok) == (pools_defect(final_list@, acceptable_list@) is None),
            r is Err ==> Some(r->Err_0) == pools_defect(final_list@, acceptable_list@),
            r is Ok ==> ({
                let w = r->Ok_0;
                &&& w.final_words@.len() == final_list@.len()
                &&& forall|i: int|
                    0 <= i < final_list@.len() ==> (#[trigger] w.final_words@[i]@) == upper_seq(
                        final_list@[i]@,
                    )
                &&& w.valid@.len() == acceptable_list@.len()
                &&& forall|i: int|
                    0 <= i < acceptable_list@.len() ==> (#[trigger] w.valid@[i]@) == upper_seq(
                        acceptable_list@[i]@,
                    )
                &&& forall|i: int| 0 <= i < w.valid@.len() ==> is_word((#[trigger] w.valid@[i])@)
                &&& forall|i: int|
                    0 <= i < w.final_words@.len() ==> is_word((#[trigger] w.final_words@[i])@)
                &&& forall|i: int|
                    0 <= i < w.final_words@.len() ==> in_list(
                        w.valid@,
                        w.valid@.len() as int,
                        (#[trigger] w.final_words@[i])@,
                    )
                &&& w.final_list@.len() == w.final_words@.len()
                &&& forall|i: int|
                    0 <= i < w.final_list@.len() ==> is_word((#[trigger] w.final_list@[i])@)
                &&& w.final_list@.to_multiset() == w.final_words@.to_multiset()
                &&& (!random ==> w.final_list@ == w.final_words@)
            }),
    {
        let fl = match upper_list(&final_list) {
            Ok(v) => v,
            Err(e) => {
                return Err(e);
            },
        };
        let vl = match upper_list(&acceptable_list) {
            Ok(v) => v,
            Err(e) => {
                return Err(e);
            },
        };
        let mut i: usize = 0;
        while i < fl.len()
            invariant
                i <= fl@.len(),
                subset_defect_from(final_list@, 0, acceptable_list@) == subset_defect_from(
                    final_list@,
                    i as int,
                    acceptable_list@,
                ),
                forall|j: int|
                    0 <= j < i ==> in_list(vl@, vl@.len() as int, (#[trigger] fl@[j])@),
            decreases fl@.len() - i,
        {
            let present = contains_word(&vl, &fl[i]);
            proof {
                lemma_upper_in_congruent(vl@, acceptable_list@, vl@.len() as int, fl@[i as int]@);
            }
            if !present {
                return Err(GameError::FinalNotAcceptable);
            }
            i += 1;
        }
        let fw = clone_words(&fl);
        let mut play = fl;
        if random {
            shuffle_seeded(&mut play, seed);
            proof {
                lemma_elements_still_words(play@, fw@);
            }
        }
        Ok(Words { final_list: play, final_words: fw, valid: vl })
    }
}

} // verus!
