//! The round engine: scoring guesses, accumulated constraints, hard mode
//! and candidate filtering.
//!
//! Colors are small integers: 3 is Green (right letter, right position),
//! 2 is Yellow (letter present elsewhere, within the secret's remaining
//! budget), 1 is Red (no remaining budget), 0 is unset.

use vstd::prelude::*;

use crate::letters::{
    alpha_of, count_in, count_upto, is_upper_char, is_word, letter_at, lemma_alpha_of_letter,
    lemma_count_upto_bounds, lemma_letter_at_alpha, ascii_to_string, ALPHAS, LEN, ROUNDS,
};

verus! {

/// Snapshot of one round: the secret word and the guesses made so far.
#[derive(Clone)]
pub struct State {
    pub answer: String,
    pub guesses: Vec<String>,
}

impl State {
    pub fn new() -> (s: State)
        ensures
            s.answer@.len() == 0,
            s.guesses@.len() == 0,
    {
        State { answer: String::new(), guesses: Vec::new() }
    }
}

/// One round of play: the secret, the guess log, and the constraint state
/// accumulated from all feedback so far.
#[derive(Clone)]
pub struct Game {
    pub state: State,
    /// Best color ever achieved per letter, indexed by alphabet index.
    pub col_alpha: Vec<i8>,
    /// Color of each board position for the most recent guess.
    pub col_pos: Vec<i8>,
    /// How often each letter must at least occur in a hard-mode guess.
    pub lim_alpha: Vec<i8>,
}

/// The larger of two colors or bounds.
pub open spec fn raised(a: i8, b: i8) -> i8 {
    if a < b {
        b
    } else {
        a
    }
}

/// Among the first `n` positions, how many are an exact match of letter `c`.
pub open spec fn greens_upto(ans: Seq<char>, g: Seq<char>, c: char, n: int) -> int
    decreases n,
{
    if n <= 0 {
        0
    } else {
        greens_upto(ans, g, c, n - 1) + if g[n - 1] == c && ans[n - 1] == c {
            1int
        } else {
            0int
        }
    }
}

/// How many positions are an exact match of letter `c`.
pub open spec fn greens(ans: Seq<char>, g: Seq<char>, c: char) -> int {
    greens_upto(ans, g, c, g.len() as int)
}

/// Among the first `n` positions, how often `c` is guessed without matching.
pub open spec fn nongreens_upto(ans: Seq<char>, g: Seq<char>, c: char, n: int) -> int
    decreases n,
{
    if n <= 0 {
        0
    } else {
        nongreens_upto(ans, g, c, n - 1) + if g[n - 1] == c && ans[n - 1] != c {
            1int
        } else {
            0int
        }
    }
}

/// How often `c` is guessed without matching.
pub open spec fn nongreens(ans: Seq<char>, g: Seq<char>, c: char) -> int {
    nongreens_upto(ans, g, c, g.len() as int)
}

/// The color position `i` earns when `g` is scored against `ans`.
///
/// An exact match is Green. Otherwise the position is Yellow while the
/// guessed letter still has budget: the secret's count of that letter,
/// less its exact matches, less its earlier non-matching occurrences.
pub open spec fn color_at(ans: Seq<char>, g: Seq<char>, i: int) -> i8 {
    if g[i] == ans[i] {
        3
    } else if greens(ans, g, g[i]) + nongreens_upto(ans, g, g[i], i) < count_in(ans, g[i]) {
        2
    } else {
        1
    }
}

/// The full position-color vector for guess `g` against secret `ans`.
pub open spec fn feedback(ans: Seq<char>, g: Seq<char>) -> Seq<i8> {
    Seq::new(g.len(), |i: int| color_at(ans, g, i))
}

/// Among the first `n` positions, how many are Yellow with letter `c`.
pub open spec fn yellows_upto(ans: Seq<char>, g: Seq<char>, c: char, n: int) -> int
    decreases n,
{
    if n <= 0 {
        0
    } else {
        yellows_upto(ans, g, c, n - 1) + if g[n - 1] == c && color_at(ans, g, n - 1) == 2 {
            1int
        } else {
            0int
        }
    }
}

/// How many positions are Yellow with letter `c`.
pub open spec fn yellows(ans: Seq<char>, g: Seq<char>, c: char) -> int {
    yellows_upto(ans, g, c, g.len() as int)
}

/// How many positions are Green or Yellow with letter `c`: the lower bound
/// on `c`'s occurrences that scoring `g` against `ans` reveals.
pub open spec fn gy_count(ans: Seq<char>, g: Seq<char>, c: char) -> int {
    vstd::math::min(count_in(ans, c), greens(ans, g, c) + nongreens(ans, g, c))
}

/// The best color letter `c` earns anywhere in guess `g`.
pub open spec fn letter_best(ans: Seq<char>, g: Seq<char>, c: char) -> i8 {
    if greens(ans, g, c) > 0 {
        3
    } else if yellows(ans, g, c) > 0 {
        2
    } else if nongreens(ans, g, c) > 0 {
        1
    } else {
        0
    }
}

impl Game {
    /// The round is won: the most recent guess equals the secret.
    pub open spec fn spec_won(self) -> bool {
        self.state.guesses@.len() > 0 && self.state.guesses@.last()@ == self.state.answer@
    }

    /// The round is over: won, or all guesses are used up.
    pub open spec fn spec_ended(self) -> bool {
        self.state.guesses@.len() == ROUNDS || self.spec_won()
    }

    /// Well-formedness. The constraint vectors have their fixed lengths and
    /// in-range entries; before the first guess they are all zero; once a
    /// guess was made, the secret and all guesses are words, the position
    /// colors are exactly the feedback of the most recent guess, and no
    /// letter's required count exceeds its count in the secret.
    pub open spec fn wf(self) -> bool {
        &&& self.col_alpha@.len() == ALPHAS
        &&& self.col_pos@.len() == LEN
        &&& self.lim_alpha@.len() == ALPHAS
        &&& forall|a: int| 0 <= a < ALPHAS ==> 0 <= #[trigger] self.col_alpha@[a] <= 3
        &&& forall|i: int| 0 <= i < LEN ==> 0 <= #[trigger] self.col_pos@[i] <= 3
        &&& self.state.guesses@.len() <= ROUNDS
        &&& self.state.answer@.len() == 0 || is_word(self.state.answer@)
        &&& if self.state.guesses@.len() == 0 {
            &&& forall|a: int| 0 <= a < ALPHAS ==> #[trigger] self.lim_alpha@[a] == 0
            &&& forall|i: int| 0 <= i < LEN ==> #[trigger] self.col_pos@[i] == 0
        } else {
            &&& is_word(self.state.answer@)
            &&& forall|k: int|
                0 <= k < self.state.guesses@.len() ==> is_word(#[trigger] self.state.guesses@[k]@)
            &&& self.col_pos@ == feedback(self.state.answer@, self.state.guesses@.last()@)
            &&& forall|a: int|
                0 <= a < ALPHAS ==> 0 <= #[trigger] self.lim_alpha@[a] <= count_in(
                    self.state.answer@,
                    letter_at(a),
                )
        }
    }

    /// Alphabet index of an uppercase letter.
    pub fn alpha2id(c: char) -> (id: usize)
        requires
            is_upper_char(c),
        ensures
            id == alpha_of(c),
            id < ALPHAS,
    {
        c as usize - 'A' as usize
    }

    /// Numeric color of a color letter.
    pub fn color2id(c: char) -> (id: i8)
        requires
            c == 'G' || c == 'Y' || c == 'R' || c == 'X',
        ensures
            id == color_id(c),
    {
        match c {
            'G' => 3,
            'Y' => 2,
            'R' => 1,
            _ => 0,
        }
    }

    /// Color letter of a numeric color.
    pub fn id2color(id: i8) -> (c: char)
        requires
            0 <= id <= 3,
        ensures
            c == color_char(id),
    {
        match id {
            3 => 'G',
            2 => 'Y',
            1 => 'R',
            _ => 'X',
        }
    }

    pub fn new() -> (g: Game)
        ensures
            g.wf(),
            g.state.answer@.len() == 0,
            g.state.guesses@.len() == 0,
            forall|a: int| 0 <= a < ALPHAS ==> #[trigger] g.col_alpha@[a] == 0,
            forall|i: int| 0 <= i < LEN ==> #[trigger] g.col_pos@[i] == 0,
            forall|a: int| 0 <= a < ALPHAS ==> #[trigger] g.lim_alpha@[a] == 0,
    {
        Game {
            state: State::new(),
            col_alpha: zero_vec(ALPHAS),
            col_pos: zero_vec(LEN),
            lim_alpha: zero_vec(ALPHAS),
        }
    }

    pub fn won(&self) -> (w: bool)
        ensures
            w == self.spec_won(),
    {
        let l = self.state.guesses.len();
        if l == 0 {
            false
        } else {
            self.state.guesses[l - 1].eq(&self.state.answer)
        }
    }

    pub fn ended(&self) -> (e: bool)
        ensures
            e == self.spec_ended(),
    {
        if self.state.guesses.len() == ROUNDS {
            true
        } else {
            self.won()
        }
    }

    /// How many guesses were made so far.
    pub fn rounds(&self) -> (n: usize)
        ensures
            n == self.state.guesses@.len(),
    {
        self.state.guesses.len()
    }

    /// Sets the round's secret. To be called once, before the first guess.
    pub fn set_answer(&mut self, answer: String)
        requires
            old(self).wf(),
            old(self).state.guesses@.len() == 0,
            is_word(answer@),
        ensures
            final(self).wf(),
            final(self).state.answer == answer,
            final(self).state.guesses@ == old(self).state.guesses@,
            final(self).col_alpha@ == old(self).col_alpha@,
            final(self).col_pos@ == old(self).col_pos@,
            final(self).lim_alpha@ == old(self).lim_alpha@,
    {
        self.state.answer = answer;
    }

    pub fn show_answer(&self) -> (r: &str)
        ensures
            r@ == self.state.answer@,
    {
        self.state.answer.as_str()
    }

    /// The position colors of the most recent guess and the best-seen color
    /// of each letter, in that order.
    pub fn show_col(&self) -> (r: (&Vec<i8>, &Vec<i8>))
        ensures
            r.0@ == self.col_pos@,
            r.1@ == self.col_alpha@,
    {
        (&self.col_pos, &self.col_alpha)
    }

    /// Renders a color vector as one color letter per entry.
    pub fn vec2str(v: &Vec<i8>) -> (r: String)
        requires
            forall|i: int| 0 <= i < v@.len() ==> 0 <= #[trigger] v@[i] <= 3,
        ensures
            r@.len() == v@.len(),
            forall|i: int| 0 <= i < v@.len() ==> #[trigger] r@[i] == color_char(v@[i]),
    {
        let mut bytes: Vec<u8> = Vec::new();
        let mut i: usize = 0;
        while i < v.len()
            invariant
                0 <= i <= v@.len(),
                bytes@.len() == i,
                forall|j: int| 0 <= j < v@.len() ==> 0 <= #[trigger] v@[j] <= 3,
                forall|j: int|
                    0 <= j < i ==> #[trigger] (bytes@[j] as u32) == color_char(v@[j]) as u32,
                forall|j: int| 0 <= j < i ==> #[trigger] bytes@[j] < 128,
            decreases v@.len() - i,
        {
            let id = v[i];
            let b: u8 = if id == 3 {
                71
            } else if id == 2 {
                89
            } else if id == 1 {
                82
            } else {
                88
            };
            bytes.push(b);
            i += 1;
        }
        let r = ascii_to_string(bytes);
        proof {
            assert forall|j: int| 0 <= j < v@.len() implies #[trigger] r@[j] == color_char(v@[j]) by {
                vstd::utf8::char_u32_cast(color_char(v@[j]), r@[j] as u32);
                vstd::utf8::char_u32_cast(r@[j], r@[j] as u32);
            }
        }
        r
    }
}

/// The best color letter `c` has earned from the exact matches anywhere in
/// the guess together with its non-matching occurrences among the first `n`
/// positions. Mirrors how scoring sweeps the board.
spec fn best_so_far(ans: Seq<char>, g: Seq<char>, c: char, n: int) -> i8 {
    if greens(ans, g, c) > 0 {
        3
    } else if yellows_upto(ans, g, c, n) > 0 {
        2
    } else if nongreens_upto(ans, g, c, n) > 0 {
        1
    } else {
        0
    }
}

impl Game {
    /// Scores `guess` against the secret, appends it to the guess log, and
    /// folds its feedback into the accumulated constraints. Returns whether
    /// the guess is the secret.
    #[verifier::loop_isolation(false)]
    pub fn guess(&mut self, guess: String) -> (won: bool)
        requires
            old(self).wf(),
            !old(self).spec_ended(),
            is_word(old(self).state.answer@),
            is_word(guess@),
        ensures
            final(self).wf(),
            final(self).state.answer == old(self).state.answer,
            final(self).state.guesses@ == old(self).state.guesses@.push(guess),
            final(self).col_pos@ == feedback(old(self).state.answer@, guess@),
            forall|a: int|
                0 <= a < ALPHAS ==> #[trigger] final(self).col_alpha@[a] == raised(
                    old(self).col_alpha@[a],
                    letter_best(old(self).state.answer@, guess@, letter_at(a)),
                ),
            forall|a: int|
                0 <= a < ALPHAS ==> #[trigger] (final(self).lim_alpha@[a] as int)
                    == vstd::math::max(
                    old(self).lim_alpha@[a] as int,
                    gy_count(old(self).state.answer@, guess@, letter_at(a)),
                ),
            forall|a: int|
                0 <= a < ALPHAS ==> old(self).col_alpha@[a] <= #[trigger] final(self).col_alpha@[a],
            forall|a: int|
                0 <= a < ALPHAS ==> old(self).lim_alpha@[a] <= #[trigger] final(self).lim_alpha@[a],
            won == (guess@ == old(self).state.answer@),
    {
        let ghost ans: Seq<char> = self.state.answer@;
        let ghost g: Seq<char> = guess@;
        self.state.guesses.push(guess.clone());
        let answer = self.state.answer.clone();

        // Remaining budget per letter, initialized from the secret's counts.
        let mut cnt_alpha = zero_vec(ALPHAS);
        let mut i: usize = 0;
        while i < LEN
            invariant
                i <= LEN,
                cnt_alpha@.len() == ALPHAS,
                forall|a: int|
                    0 <= a < ALPHAS ==> #[trigger] (cnt_alpha@[a] as int) == count_upto(
                        ans,
                        letter_at(a),
                        i as int,
                    ),
            decreases LEN - i,
        {
            let ca = answer.as_str().get_char(i);
            proof {
                lemma_alpha_of_letter(ca);
                lemma_count_upto_bounds(ans, ca, i as int);
            }
            let id = Self::alpha2id(ca);
            let cur = cnt_alpha[id];
            cnt_alpha[id] = cur + 1;
            proof {
                assert forall|a: int| 0 <= a < ALPHAS implies #[trigger] (cnt_alpha@[a] as int)
                    == count_upto(ans, letter_at(a), i as int + 1) by {
                    lemma_letter_at_alpha(a);
                }
            }
            i += 1;
        }
        proof {
            assert forall|a: int| 0 <= a < ALPHAS implies #[trigger] (cnt_alpha@[a] as int)
                == count_in(ans, letter_at(a)) by {}
        }
        let req_alpha = clone_counts(&cnt_alpha);

        let ghost pre_pos = self.col_pos@;
        let ghost pre_alpha = self.col_alpha@;

        // First pass: exact matches become Green and use up budget.
        let mut i: usize = 0;
        while i < LEN
            invariant
                i <= LEN,
                cnt_alpha@.len() == ALPHAS,
                self.col_pos@.len() == LEN,
                self.col_alpha@.len() == ALPHAS,
                self.lim_alpha@ == old(self).lim_alpha@,
                self.state.answer == old(self).state.answer,
                self.state.guesses@ == old(self).state.guesses@.push(guess),
                forall|a: int|
                    0 <= a < ALPHAS ==> #[trigger] (cnt_alpha@[a] as int) == count_in(
                        ans,
                        letter_at(a),
                    ) - greens_upto(ans, g, letter_at(a), i as int),
                forall|j: int| 0 <= j < i && g[j] == ans[j] ==> #[trigger] self.col_pos@[j] == 3,
                forall|j: int|
                    0 <= j < LEN && !(j < i && g[j] == ans[j]) ==> #[trigger] self.col_pos@[j]
                        == pre_pos[j],
                forall|a: int|
                    0 <= a < ALPHAS ==> #[trigger] self.col_alpha@[a] == if greens_upto(
                        ans,
                        g,
                        letter_at(a),
                        i as int,
                    ) > 0 {
                        3i8
                    } else {
                        pre_alpha[a]
                    },
            decreases LEN - i,
        {
            let ca = answer.as_str().get_char(i);
            let cg = guess.as_str().get_char(i);
            if ca == cg {
                proof {
                    lemma_alpha_of_letter(ca);
                    lemma_greens_le_count_upto(ans, g, ca, i as int);
                    lemma_count_upto_mono(ans, ca, i as int, 5);
                    lemma_count_upto_bounds(ans, ca, 5);
                    lemma_greens_upto_bounds(ans, g, ca, i as int);
                }
                let id = Self::alpha2id(ca);
                let cur = cnt_alpha[id];
                proof {
                    assert(count_upto(ans, ca, i as int + 1) == count_upto(ans, ca, i as int) + 1);
                    lemma_count_upto_mono(ans, ca, i as int + 1, 5);
                }
                cnt_alpha[id] = cur - 1;
                self.col_pos[i] = 3;
                self.col_alpha[id] = 3;
                proof {
                    assert forall|a: int| 0 <= a < ALPHAS implies #[trigger] (cnt_alpha@[a] as int)
                        == count_in(ans, letter_at(a)) - greens_upto(
                        ans,
                        g,
                        letter_at(a),
                        i as int + 1,
                    ) by {
                        lemma_letter_at_alpha(a);
                    }
                }
            } else {
                proof {
                    assert forall|a: int| 0 <= a < ALPHAS implies greens_upto(
                        ans,
                        g,
                        letter_at(a),
                        i as int + 1,
                    ) == greens_upto(ans, g, letter_at(a), i as int) by {}
                }
            }
            i += 1;
        }

        // Second pass: remaining positions are Yellow while budget lasts.
        let mut i: usize = 0;
        while i < LEN
            invariant
                i <= LEN,
                cnt_alpha@.len() == ALPHAS,
                self.col_pos@.len() == LEN,
                self.col_alpha@.len() == ALPHAS,
                self.lim_alpha@ == old(self).lim_alpha@,
                self.state.answer == old(self).state.answer,
                self.state.guesses@ == old(self).state.guesses@.push(guess),
                forall|a: int|
                    0 <= a < ALPHAS ==> #[trigger] (cnt_alpha@[a] as int) == count_in(
                        ans,
                        letter_at(a),
                    ) - greens(ans, g, letter_at(a)) - nongreens_upto(ans, g, letter_at(a), i as int),
                forall|j: int| 0 <= j < LEN && g[j] == ans[j] ==> #[trigger] self.col_pos@[j] == 3,
                forall|j: int|
                    0 <= j < i && g[j] != ans[j] ==> #[trigger] self.col_pos@[j] == color_at(
                        ans,
                        g,
                        j,
                    ),
                forall|j: int|
                    i <= j < LEN && g[j] != ans[j] ==> #[trigger] self.col_pos@[j] == pre_pos[j],
                forall|a: int|
                    0 <= a < ALPHAS ==> #[trigger] self.col_alpha@[a] == raised(
                        pre_alpha[a],
                        best_so_far(ans, g, letter_at(a), i as int),
                    ),
            decreases LEN - i,
        {
            let ca = answer.as_str().get_char(i);
            let cg = guess.as_str().get_char(i);
            if ca != cg {
                proof {
                    lemma_alpha_of_letter(cg);
                    lemma_count_upto_bounds(ans, cg, 5);
                    lemma_greens_upto_bounds(ans, g, cg, 5);
                    lemma_nongreens_upto_bounds(ans, g, cg, i as int);
                }
                let id = Self::alpha2id(cg);
                let cur = cnt_alpha[id];
                cnt_alpha[id] = cur - 1;
                let col: i8 = if cur - 1 >= 0 {
                    2
                } else {
                    1
                };
                self.col_pos[i] = col;
                proof {
                    assert(col == color_at(ans, g, i as int));
                }
                let cural = self.col_alpha[id];
                if cural < col {
                    self.col_alpha[id] = col;
                }
                proof {
                    assert forall|a: int| 0 <= a < ALPHAS implies #[trigger] (cnt_alpha@[a] as int)
                        == count_in(ans, letter_at(a)) - greens(ans, g, letter_at(a))
                        - nongreens_upto(ans, g, letter_at(a), i as int + 1) by {
                        lemma_letter_at_alpha(a);
                    }
                    assert forall|a: int| 0 <= a < ALPHAS implies #[trigger] self.col_alpha@[a]
                        == raised(pre_alpha[a], best_so_far(ans, g, letter_at(a), i as int + 1)) by {
                        lemma_letter_at_alpha(a);
                        lemma_yellows_upto_bounds(ans, g, letter_at(a), i as int);
                        lemma_nongreens_upto_bounds(ans, g, letter_at(a), i as int);
                    }
                }
            } else {
                proof {
                    assert forall|a: int| 0 <= a < ALPHAS implies nongreens_upto(
                        ans,
                        g,
                        letter_at(a),
                        i as int + 1,
                    ) == nongreens_upto(ans, g, letter_at(a), i as int) && yellows_upto(
                        ans,
                        g,
                        letter_at(a),
                        i as int + 1,
                    ) == yellows_upto(ans, g, letter_at(a), i as int) by {}
                }
            }
            i += 1;
        }
        proof {
            assert(self.col_pos@ =~= feedback(ans, g));
        }

        // Fold this guess's revealed lower bounds into the running minimums.
        let mut a: usize = 0;
        while a < ALPHAS
            invariant
                a <= ALPHAS,
                cnt_alpha@.len() == ALPHAS,
                req_alpha@.len() == ALPHAS,
                self.col_pos@.len() == LEN,
                self.col_alpha@.len() == ALPHAS,
                self.lim_alpha@.len() == ALPHAS,
                self.state.answer == old(self).state.answer,
                self.state.guesses@ == old(self).state.guesses@.push(guess),
                self.col_pos@ == feedback(ans, g),
                forall|b: int|
                    0 <= b < ALPHAS ==> #[trigger] self.col_alpha@[b] == raised(
                        pre_alpha[b],
                        best_so_far(ans, g, letter_at(b), 5),
                    ),
                forall|b: int|
                    0 <= b < ALPHAS ==> #[trigger] (req_alpha@[b] as int) == count_in(
                        ans,
                        letter_at(b),
                    ),
                forall|b: int|
                    0 <= b < ALPHAS ==> #[trigger] (cnt_alpha@[b] as int) == count_in(
                        ans,
                        letter_at(b),
                    ) - greens(ans, g, letter_at(b)) - nongreens(ans, g, letter_at(b)),
                forall|b: int|
                    0 <= b < a ==> #[trigger] (self.lim_alpha@[b] as int) == vstd::math::max(
                        old(self).lim_alpha@[b] as int,
                        gy_count(ans, g, letter_at(b)),
                    ),
                forall|b: int|
                    a <= b < ALPHAS ==> #[trigger] self.lim_alpha@[b] == old(self).lim_alpha@[b],
            decreases ALPHAS - a,
        {
            proof {
                lemma_count_upto_bounds(ans, letter_at(a as int), 5);
                lemma_greens_upto_bounds(ans, g, letter_at(a as int), 5);
                lemma_nongreens_upto_bounds(ans, g, letter_at(a as int), 5);
                lemma_greens_le_count(ans, g, letter_at(a as int));
            }
            let req = req_alpha[a];
            let cnt = cnt_alpha[a];
            let left = if cnt >= 0 {
                cnt
            } else {
                0
            };
            let cand = req - left;
            let cur = self.lim_alpha[a];
            if cur < cand {
                self.lim_alpha[a] = cand;
            }
            a += 1;
        }

        let won = guess.eq(&answer);
        proof {
            assert forall|aa: int| 0 <= aa < ALPHAS implies #[trigger] self.col_alpha@[aa] == raised(
                old(self).col_alpha@[aa],
                letter_best(ans, g, letter_at(aa)),
            ) by {}
            assert forall|aa: int| 0 <= aa < ALPHAS implies 0 <= #[trigger] self.col_alpha@[aa]
                <= 3 by {}
            assert forall|aa: int| 0 <= aa < ALPHAS implies 0 <= #[trigger] (self.lim_alpha@[aa]
                as int) <= count_in(self.state.answer@, letter_at(aa)) by {
                lemma_count_upto_bounds(ans, letter_at(aa), 5);
                lemma_greens_upto_bounds(ans, g, letter_at(aa), 5);
                lemma_nongreens_upto_bounds(ans, g, letter_at(aa), 5);
                lemma_greens_le_count(ans, g, letter_at(aa));
            }
            assert forall|i: int| 0 <= i < LEN implies 0 <= #[trigger] self.col_pos@[i] <= 3 by {}
            assert(self.state.guesses@.last() == guess);
        }
        won
    }
}

/// A copy of a counter vector.
fn clone_counts(v: &Vec<i8>) -> (r: Vec<i8>)
    ensures
        r@ == v@,
{
    let mut r: Vec<i8> = Vec::new();
    let mut i: usize = 0;
    while i < v.len()
        invariant
            i <= v@.len(),
            r@ == v@.subrange(0, i as int),
        decreases v@.len() - i,
    {
        r.push(v[i]);
        proof {
            assert(r@ =~= v@.subrange(0, i as int + 1));
        }
        i += 1;
    }
    proof {
        assert(r@ =~= v@);
    }
    r
}

/// Numeric color of a color letter.
pub open spec fn color_id(c: char) -> i8 {
    if c == 'G' {
        3
    } else if c == 'Y' {
        2
    } else if c == 'R' {
        1
    } else {
        0
    }
}

/// Color letter of a numeric color.
pub open spec fn color_char(id: i8) -> char {
    if id == 3 {
        'G'
    } else if id == 2 {
        'Y'
    } else if id == 1 {
        'R'
    } else {
        'X'
    }
}

/// Among the first `n` positions of the most recent guess, some position
/// holds letter `c` and was colored Red.
pub open spec fn has_red_upto(lg: Seq<char>, cp: Seq<i8>, c: char, n: int) -> bool
    decreases n,
{
    if n <= 0 {
        false
    } else {
        has_red_upto(lg, cp, c, n - 1) || (lg[n - 1] == c && cp[n - 1] == 1)
    }
}

/// Some position of the most recent guess holds letter `c` and was colored
/// Red: its occurrences beyond the secret's budget were flagged.
pub open spec fn has_red(lg: Seq<char>, cp: Seq<i8>, c: char) -> bool {
    has_red_upto(lg, cp, c, LEN as int)
}

/// Among the first `n` positions, how many hold letter `c` colored Green or
/// Yellow.
pub open spec fn gy_pos_upto(lg: Seq<char>, cp: Seq<i8>, c: char, n: int) -> int
    decreases n,
{
    if n <= 0 {
        0
    } else {
        gy_pos_upto(lg, cp, c, n - 1) + if lg[n - 1] == c && cp[n - 1] >= 2 {
            1int
        } else {
            0int
        }
    }
}

/// How many positions hold letter `c` colored Green or Yellow: the usage
/// ceiling a Red occurrence of `c` imposes on candidates.
pub open spec fn gy_pos_count(lg: Seq<char>, cp: Seq<i8>, c: char) -> int {
    gy_pos_upto(lg, cp, c, LEN as int)
}

impl Game {
    /// A candidate satisfies hard mode: it repeats every Green position and
    /// carries at least the required number of each letter.
    pub open spec fn hard_ok(self, w: Seq<char>) -> bool {
        &&& forall|i: int|
            0 <= i < LEN && #[trigger] self.col_pos@[i] == 3 ==> self.state.answer@[i] == w[i]
        &&& forall|a: int|
            0 <= a < ALPHAS ==> #[trigger] (self.lim_alpha@[a] as int) <= count_in(w, letter_at(a))
    }

    /// A candidate is still possible given the most recent guess's feedback
    /// and the accumulated letter bounds: it repeats every Green position,
    /// avoids every Yellow position's letter at that position, stays at or
    /// under the ceiling of every letter the most recent guess colored Red,
    /// and carries at least the required number of each letter.
    pub open spec fn word_ok(self, w: Seq<char>) -> bool {
        let lg = self.state.guesses@.last()@;
        &&& forall|i: int|
            0 <= i < LEN && #[trigger] self.col_pos@[i] == 3 ==> self.state.answer@[i] == w[i]
        &&& forall|i: int| 0 <= i < LEN && #[trigger] self.col_pos@[i] == 2 ==> lg[i] != w[i]
        &&& forall|a: int|
            0 <= a < ALPHAS && has_red(lg, self.col_pos@, #[trigger] letter_at(a)) ==> count_in(
                w,
                letter_at(a),
            ) <= gy_pos_count(lg, self.col_pos@, letter_at(a))
        &&& forall|a: int|
            0 <= a < ALPHAS ==> #[trigger] (self.lim_alpha@[a] as int) <= count_in(w, letter_at(a))
    }

    /// Whether `guess` meets the requirement of hard mode.
    #[verifier::loop_isolation(false)]
    pub fn hard_check(&self, guess: &str) -> (ok: bool)
        requires
            self.wf(),
            is_word(guess@),
        ensures
            ok == self.hard_ok(guess@),
    {
        let mut cnt_alpha = zero_vec(ALPHAS);
        // Tally the candidate's letters; reject a disagreement with any
        // Green position on the way.
        let answer_set = !self.state.answer.as_str().is_empty();
        let mut i: usize = 0;
        while i < LEN
            invariant
                i <= LEN,
                cnt_alpha@.len() == ALPHAS,
                forall|a: int|
                    0 <= a < ALPHAS ==> #[trigger] (cnt_alpha@[a] as int) == count_upto(
                        guess@,
                        letter_at(a),
                        i as int,
                    ),
                forall|j: int|
                    0 <= j < i && #[trigger] self.col_pos@[j] == 3 ==> self.state.answer@[j]
                        == guess@[j],
            decreases LEN - i,
        {
            if answer_set {
                let ca = self.state.answer.as_str().get_char(i);
                let cg = guess.get_char(i);
                if self.col_pos[i] == 3 && ca != cg {
                    return false;
                }
            }
            let cg = guess.get_char(i);
            proof {
                lemma_alpha_of_letter(cg);
                lemma_count_upto_bounds(guess@, cg, i as int);
            }
            let id = Self::alpha2id(cg);
            let cur = cnt_alpha[id];
            cnt_alpha[id] = cur + 1;
            proof {
                assert forall|a: int| 0 <= a < ALPHAS implies #[trigger] (cnt_alpha@[a] as int)
                    == count_upto(guess@, letter_at(a), i as int + 1) by {
                    lemma_letter_at_alpha(a);
                }
            }
            i += 1;
        }
        // Check the per-letter lower bounds.
        let mut a: usize = 0;
        while a < ALPHAS
            invariant
                a <= ALPHAS,
                cnt_alpha@.len() == ALPHAS,
                forall|b: int|
                    0 <= b < ALPHAS ==> #[trigger] (cnt_alpha@[b] as int) == count_in(
                        guess@,
                        letter_at(b),
                    ),
                forall|b: int|
                    0 <= b < a ==> #[trigger] (self.lim_alpha@[b] as int) <= count_in(
                        guess@,
                        letter_at(b),
                    ),
            decreases ALPHAS - a,
        {
            if self.lim_alpha[a] > cnt_alpha[a] {
                return false;
            }
            a += 1;
        }
        true
    }

    /// Keeps the words of `words` that are still possible, in their order.
    #[verifier::loop_isolation(false)]
    pub fn find_valid(&self, words: Vec<String>) -> (r: Vec<String>)
        requires
            self.wf(),
            self.state.guesses@.len() > 0,
            forall|k: int| 0 <= k < words@.len() ==> is_word(#[trigger] words@[k]@),
        ensures
            r@ == words@.filter(|w: String| self.word_ok(w@)),
    {
        let last = self.state.guesses.len() - 1;
        let lg: &String = &self.state.guesses[last];
        // Ceiling per letter: Red somewhere in the most recent guess caps a
        // letter at its Green/Yellow occurrences there; others are free.
        let mut gy = zero_vec(ALPHAS);
        let mut red = zero_vec(ALPHAS);
        let mut i: usize = 0;
        while i < LEN
            invariant
                i <= LEN,
                gy@.len() == ALPHAS,
                red@.len() == ALPHAS,
                forall|a: int|
                    0 <= a < ALPHAS ==> #[trigger] (gy@[a] as int) == gy_pos_upto(
                        lg@,
                        self.col_pos@,
                        letter_at(a),
                        i as int,
                    ),
                forall|a: int|
                    0 <= a < ALPHAS ==> ((#[trigger] red@[a]) == 1i8) == has_red_upto(
                        lg@,
                        self.col_pos@,
                        letter_at(a),
                        i as int,
                    ),
                forall|a: int| 0 <= a < ALPHAS ==> #[trigger] red@[a] == 0 || red@[a] == 1,
            decreases LEN - i,
        {
            let c = lg.as_str().get_char(i);
            proof {
                lemma_alpha_of_letter(c);
                lemma_gy_pos_upto_bounds(lg@, self.col_pos@, c, i as int);
            }
            let id = Self::alpha2id(c);
            if self.col_pos[i] >= 2 {
                let cur = gy[id];
                gy[id] = cur + 1;
            }
            if self.col_pos[i] == 1 {
                red[id] = 1;
            }
            proof {
                assert forall|a: int| 0 <= a < ALPHAS implies #[trigger] (gy@[a] as int)
                    == gy_pos_upto(lg@, self.col_pos@, letter_at(a), i as int + 1) && ((
                #[trigger] red@[a]) == 1i8) == has_red_upto(
                    lg@,
                    self.col_pos@,
                    letter_at(a),
                    i as int + 1,
                ) by {
                    lemma_letter_at_alpha(a);
                }
            }
            i += 1;
        }
        let mut ulim = zero_vec(ALPHAS);
        let mut a: usize = 0;
        while a < ALPHAS
            invariant
                a <= ALPHAS,
                gy@.len() == ALPHAS,
                red@.len() == ALPHAS,
                ulim@.len() == ALPHAS,
                forall|b: int|
                    0 <= b < ALPHAS ==> #[trigger] (gy@[b] as int) == gy_pos_count(
                        lg@,
                        self.col_pos@,
                        letter_at(b),
                    ),
                forall|b: int|
                    0 <= b < ALPHAS ==> ((#[trigger] red@[b]) == 1i8) == has_red(
                        lg@,
                        self.col_pos@,
                        letter_at(b),
                    ),
                forall|b: int|
                    0 <= b < a ==> #[trigger] (ulim@[b] as int) == if has_red(
                        lg@,
                        self.col_pos@,
                        letter_at(b),
                    ) {
                        gy_pos_count(lg@, self.col_pos@, letter_at(b))
                    } else {
                        100int
                    },
            decreases ALPHAS - a,
        {
            ulim[a] = if red[a] == 1 {
                gy[a]
            } else {
                100
            };
            a += 1;
        }
        // Keep the words that pass every check.
        let mut out: Vec<String> = Vec::new();
        let mut k: usize = 0;
        while k < words.len()
            invariant
                k <= words@.len(),
                ulim@.len() == ALPHAS,
                forall|b: int|
                    0 <= b < ALPHAS ==> #[trigger] (ulim@[b] as int) == if has_red(
                        lg@,
                        self.col_pos@,
                        letter_at(b),
                    ) {
                        gy_pos_count(lg@, self.col_pos@, letter_at(b))
                    } else {
                        100int
                    },
                out@ == words@.subrange(0, k as int).filter(|w: String| self.word_ok(w@)),
            decreases words@.len() - k,
        {
            let w: &String = &words[k];
            let keep = self.word_allowed(lg, &ulim, w);
            if keep {
                out.push(w.clone());
            }
            proof {
                assert(words@.subrange(0, k as int + 1) =~= words@.subrange(0, k as int).push(
                    words@[k as int],
                ));
                words@.subrange(0, k as int).lemma_filter_push(
                    words@[k as int],
                    |w: String| self.word_ok(w@),
                );
            }
            k += 1;
        }
        proof {
            assert(words@.subrange(0, words@.len() as int) =~= words@);
        }
        out
    }

    /// Whether one candidate passes every filtering rule.
    #[verifier::loop_isolation(false)]
    fn word_allowed(&self, lg: &String, ulim: &Vec<i8>, word: &String) -> (ok: bool)
        requires
            self.wf(),
            self.state.guesses@.len() > 0,
            lg@ == self.state.guesses@.last()@,
            is_word(word@),
            ulim@.len() == ALPHAS,
            forall|b: int|
                0 <= b < ALPHAS ==> #[trigger] (ulim@[b] as int) == if has_red(
                    lg@,
                    self.col_pos@,
                    letter_at(b),
                ) {
                    gy_pos_count(lg@, self.col_pos@, letter_at(b))
                } else {
                    100int
                },
        ensures
            ok == self.word_ok(word@),
    {
        let mut i: usize = 0;
        while i < LEN
            invariant
                i <= LEN,
                forall|j: int|
                    0 <= j < i && #[trigger] self.col_pos@[j] == 3 ==> self.state.answer@[j]
                        == word@[j],
                forall|j: int| 0 <= j < i && #[trigger] self.col_pos@[j] == 2 ==> lg@[j] != word@[j],
            decreases LEN - i,
        {
            let cw = word.as_str().get_char(i);
            if self.col_pos[i] == 3 {
                let ca = self.state.answer.as_str().get_char(i);
                if ca != cw {
                    return false;
                }
            }
            if self.col_pos[i] == 2 {
                let cg = lg.as_str().get_char(i);
                if cg == cw {
                    return false;
                }
            }
            i += 1;
        }
        let mut cnt_alpha = zero_vec(ALPHAS);
        let mut i: usize = 0;
        while i < LEN
            invariant
                i <= LEN,
                cnt_alpha@.len() == ALPHAS,
                forall|a: int|
                    0 <= a < ALPHAS ==> #[trigger] (cnt_alpha@[a] as int) == count_upto(
                        word@,
                        letter_at(a),
                        i as int,
                    ),
            decreases LEN - i,
        {
            let cw = word.as_str().get_char(i);
            proof {
                lemma_alpha_of_letter(cw);
                lemma_count_upto_bounds(word@, cw, i as int);
            }
            let id = Self::alpha2id(cw);
            let cur = cnt_alpha[id];
            cnt_alpha[id] = cur + 1;
            proof {
                assert forall|a: int| 0 <= a < ALPHAS implies #[trigger] (cnt_alpha@[a] as int)
                    == count_upto(word@, letter_at(a), i as int + 1) by {
                    lemma_letter_at_alpha(a);
                }
            }
            i += 1;
        }
        let mut a: usize = 0;
        while a < ALPHAS
            invariant
                a <= ALPHAS,
                cnt_alpha@.len() == ALPHAS,
                forall|b: int|
                    0 <= b < ALPHAS ==> #[trigger] (cnt_alpha@[b] as int) == count_in(
                        word@,
                        letter_at(b),
                    ),
                forall|b: int|
                    0 <= b < a && has_red(lg@, self.col_pos@, #[trigger] letter_at(b)) ==> count_in(
                        word@,
                        letter_at(b),
                    ) <= gy_pos_count(lg@, self.col_pos@, letter_at(b)),
                forall|b: int|
                    0 <= b < a ==> #[trigger] (self.lim_alpha@[b] as int) <= count_in(
                        word@,
                        letter_at(b),
                    ),
            decreases ALPHAS - a,
        {
            proof {
                lemma_count_upto_bounds(word@, letter_at(a as int), 5);
            }
            if cnt_alpha[a] > ulim[a] || cnt_alpha[a] < self.lim_alpha[a] {
                return false;
            }
            a += 1;
        }
        true
    }
}

/// Prefix counts of Green/Yellow positions never exceed the prefix length.
pub proof fn lemma_gy_pos_upto_bounds(lg: Seq<char>, cp: Seq<i8>, c: char, n: int)
    requires
        0 <= n,
    ensures
        0 <= gy_pos_upto(lg, cp, c, n) <= n,
    decreases n,
{
    if n > 0 {
        lemma_gy_pos_upto_bounds(lg, cp, c, n - 1);
    }
}

/// Prefix counts of exact matches never exceed the prefix length.
pub proof fn lemma_greens_upto_bounds(ans: Seq<char>, g: Seq<char>, c: char, n: int)
    requires
        0 <= n,
    ensures
        0 <= greens_upto(ans, g, c, n) <= n,
    decreases n,
{
    if n > 0 {
        lemma_greens_upto_bounds(ans, g, c, n - 1);
    }
}

/// Prefix counts of non-matching occurrences never exceed the prefix length.
pub proof fn lemma_nongreens_upto_bounds(ans: Seq<char>, g: Seq<char>, c: char, n: int)
    requires
        0 <= n,
    ensures
        0 <= nongreens_upto(ans, g, c, n) <= n,
    decreases n,
{
    if n > 0 {
        lemma_nongreens_upto_bounds(ans, g, c, n - 1);
    }
}

/// Prefix counts of Yellow positions never exceed the prefix length.
pub proof fn lemma_yellows_upto_bounds(ans: Seq<char>, g: Seq<char>, c: char, n: int)
    requires
        0 <= n,
    ensures
        0 <= yellows_upto(ans, g, c, n) <= n,
    decreases n,
{
    if n > 0 {
        lemma_yellows_upto_bounds(ans, g, c, n - 1);
    }
}

/// Letter counts grow with the prefix.
pub proof fn lemma_count_upto_mono(s: Seq<char>, c: char, m: int, n: int)
    requires
        0 <= m <= n,
    ensures
        count_upto(s, c, m) <= count_upto(s, c, n),
    decreases n,
{
    if m < n {
        lemma_count_upto_mono(s, c, m, n - 1);
    }
}

/// A prefix holds no more exact matches of `c` than occurrences of `c`.
pub proof fn lemma_greens_le_count_upto(ans: Seq<char>, g: Seq<char>, c: char, n: int)
    requires
        0 <= n,
    ensures
        greens_upto(ans, g, c, n) <= count_upto(ans, c, n),
    decreases n,
{
    if n > 0 {
        lemma_greens_le_count_upto(ans, g, c, n - 1);
    }
}

/// A guess holds no more exact matches of `c` than the secret holds of `c`.
pub proof fn lemma_greens_le_count(ans: Seq<char>, g: Seq<char>, c: char)
    requires
        ans.len() == g.len(),
    ensures
        greens(ans, g, c) <= count_in(ans, c),
{
    lemma_greens_le_count_upto(ans, g, c, g.len() as int);
}

/// The Yellow positions of a letter are exactly its first non-matching
/// occurrences, until the secret's remaining budget for it runs out.
pub proof fn lemma_yellows_characterize(ans: Seq<char>, g: Seq<char>, c: char, n: int)
    requires
        ans.len() == g.len(),
        0 <= n <= g.len(),
    ensures
        yellows_upto(ans, g, c, n) == vstd::math::min(
            nongreens_upto(ans, g, c, n),
            count_in(ans, c) - greens(ans, g, c),
        ),
    decreases n,
{
    lemma_greens_le_count(ans, g, c);
    if n > 0 {
        lemma_yellows_characterize(ans, g, c, n - 1);
        lemma_nongreens_upto_bounds(ans, g, c, n - 1);
    }
}

/// A position's color is Green exactly when the guess matches the secret
/// there.
pub proof fn lemma_green_iff_match(ans: Seq<char>, g: Seq<char>, i: int)
    requires
        0 <= i < g.len(),
    ensures
        feedback(ans, g)[i] == 3 <==> g[i] == ans[i],
{
}

/// A guess's Green and Yellow positions of a letter never outnumber the
/// letter's occurrences in the secret.
pub proof fn lemma_gy_le_count(ans: Seq<char>, g: Seq<char>, c: char)
    requires
        ans.len() == g.len(),
    ensures
        greens(ans, g, c) + yellows(ans, g, c) <= count_in(ans, c),
{
    lemma_yellows_characterize(ans, g, c, g.len() as int);
    lemma_greens_le_count(ans, g, c);
    lemma_yellows_upto_bounds(ans, g, c, g.len() as int);
    lemma_nongreens_upto_bounds(ans, g, c, g.len() as int);
}

/// In a guess's feedback, the positions holding a letter colored Green or
/// Yellow never outnumber the letter's occurrences in the secret.
pub proof fn lemma_gy_positions_le_count(ans: Seq<char>, g: Seq<char>, c: char)
    requires
        ans.len() == g.len(),
        g.len() == LEN,
    ensures
        gy_pos_count(g, feedback(ans, g), c) <= count_in(ans, c),
{
    lemma_gy_pos_split(ans, g, c, LEN as int);
    lemma_gy_le_count(ans, g, c);
}

/// The lower bound a guess reveals for a letter is exactly its Green plus
/// Yellow positions.
pub proof fn lemma_gy_count_split(ans: Seq<char>, g: Seq<char>, c: char)
    requires
        ans.len() == g.len(),
    ensures
        gy_count(ans, g, c) == greens(ans, g, c) + yellows(ans, g, c),
{
    lemma_yellows_characterize(ans, g, c, g.len() as int);
    lemma_greens_le_count(ans, g, c);
    lemma_nongreens_upto_bounds(ans, g, c, g.len() as int);
}

/// Feedback depends on the secret and the guess alone: two rounds with the
/// same secret color the same guess the same way, whatever was guessed
/// before in either.
pub proof fn lemma_feedback_repeatable(first: Game, second: Game, w: Seq<char>)
    requires
        first.state.answer@ == second.state.answer@,
    ensures
        feedback(first.state.answer@, w) == feedback(second.state.answer@, w),
{
}

/// Hard-mode soundness: the secret itself satisfies hard mode against its
/// own round state, after any number of guesses.
pub proof fn lemma_hard_mode_sound(game: Game)
    requires
        game.wf(),
        is_word(game.state.answer@),
    ensures
        game.hard_ok(game.state.answer@),
{
    assert forall|a: int| 0 <= a < ALPHAS implies #[trigger] (game.lim_alpha@[a] as int)
        <= count_in(game.state.answer@, letter_at(a)) by {
        lemma_count_upto_bounds(game.state.answer@, letter_at(a), 5);
    }
}

/// In the feedback of a guess, the Green or Yellow positions of a letter
/// are exactly its exact matches plus its Yellow occurrences.
proof fn lemma_gy_pos_split(ans: Seq<char>, g: Seq<char>, c: char, n: int)
    requires
        ans.len() == g.len(),
        g.len() == LEN,
        0 <= n <= LEN,
    ensures
        gy_pos_upto(g, feedback(ans, g), c, n) == greens_upto(ans, g, c, n) + yellows_upto(
            ans,
            g,
            c,
            n,
        ),
    decreases n,
{
    if n > 0 {
        lemma_gy_pos_split(ans, g, c, n - 1);
    }
}

/// A Red occurrence of a letter means the guess used up the secret's whole
/// budget for it: its non-matching occurrences exceed what was left.
proof fn lemma_red_means_exhausted(ans: Seq<char>, g: Seq<char>, c: char, n: int)
    requires
        ans.len() == g.len(),
        g.len() == LEN,
        0 <= n <= LEN,
        has_red_upto(g, feedback(ans, g), c, n),
    ensures
        nongreens_upto(ans, g, c, n) > count_in(ans, c) - greens(ans, g, c),
    decreases n,
{
    if n > 0 {
        if g[n - 1] == c && feedback(ans, g)[n - 1] == 1 {
            lemma_nongreens_upto_bounds(ans, g, c, n - 1);
        } else {
            lemma_red_means_exhausted(ans, g, c, n - 1);
        }
    }
}

/// Filtering soundness: the secret itself passes every filtering rule, so
/// `find_valid` never drops it from a candidate pool.
pub proof fn lemma_filter_keeps_answer(game: Game)
    requires
        game.wf(),
        game.state.guesses@.len() > 0,
    ensures
        game.word_ok(game.state.answer@),
{
    let ans = game.state.answer@;
    let lg = game.state.guesses@.last()@;
    assert forall|a: int|
        0 <= a < ALPHAS && has_red(lg, game.col_pos@, #[trigger] letter_at(a)) implies count_in(
        ans,
        letter_at(a),
    ) <= gy_pos_count(lg, game.col_pos@, letter_at(a)) by {
        let c = letter_at(a);
        lemma_red_means_exhausted(ans, lg, c, LEN as int);
        lemma_gy_pos_split(ans, lg, c, LEN as int);
        lemma_yellows_characterize(ans, lg, c, LEN as int);
        lemma_greens_le_count(ans, lg, c);
        lemma_nongreens_upto_bounds(ans, lg, c, LEN as int);
    }
    assert forall|a: int| 0 <= a < ALPHAS implies #[trigger] (game.lim_alpha@[a] as int)
        <= count_in(ans, letter_at(a)) by {
        lemma_count_upto_bounds(ans, letter_at(a), 5);
    }
}

/// A vector of `n` zero counters.
fn zero_vec(n: usize) -> (v: Vec<i8>)
    ensures
        v@.len() == n,
        forall|i: int| 0 <= i < n ==> #[trigger] v@[i] == 0,
{
    let mut v: Vec<i8> = Vec::new();
    let mut i: usize = 0;
    while i < n
        invariant
            v@.len() == i,
            i <= n,
            forall|j: int| 0 <= j < i ==> #[trigger] v@[j] == 0,
        decreases n - i,
    {
        v.push(0);
        i += 1;
    }
    v
}

} // verus!
