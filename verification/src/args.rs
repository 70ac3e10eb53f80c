//! Session options and their merging rules.

use vstd::prelude::*;

use crate::letters::{is_word, upper_seq, LEN};
use crate::utils::{read_word, GameError};

verus! {

/// The options a session runs with.
pub struct Args {
    /// Show the acceptable word list when prompting.
    pub hint: bool,
    /// Whether the session talks to a terminal.
    pub tty: bool,
    /// The fixed secret word, if one was given.
    pub word: Option<String>,
    /// Random mode: secrets come from the shuffled pool.
    pub random: bool,
    /// Hard mode: each guess must respect the revealed constraints.
    pub difficult: bool,
    /// Print statistics after every round.
    pub stats: bool,
    /// The day to start from, indexing the secrets pool.
    pub day: Option<i32>,
    /// The seed for shuffling the secrets pool.
    pub seed: Option<u64>,
    /// A file holding the secrets pool.
    pub final_set: Option<String>,
    /// A file holding the acceptable words.
    pub acceptable_set: Option<String>,
    /// A file holding persisted statistics.
    pub state: Option<String>,
    /// A configuration file with defaults for these options.
    pub config: Option<String>,
}

/// The first of two optional values that is present.
pub open spec fn first_some<T>(a: Option<T>, b: Option<T>) -> Option<T> {
    if a is Some {
        a
    } else {
        b
    }
}

/// The options as merged with a configuration file's: a value given on
/// the command line wins, the flags combine by or.
pub open spec fn spec_merged(a: Args, alt: Option<Args>) -> Args {
    match alt {
        None => a,
        Some(b) => Args {
            hint: a.hint,
            tty: a.tty,
            word: first_some(a.word, b.word),
            random: a.random || b.random,
            difficult: a.difficult || b.difficult,
            stats: a.stats || b.stats,
            day: first_some(a.day, b.day),
            seed: first_some(a.seed, b.seed),
            final_set: first_some(a.final_set, b.final_set),
            acceptable_set: first_some(a.acceptable_set, b.acceptable_set),
            state: first_some(a.state, b.state),
            config: first_some(a.config, b.config),
        },
    }
}

impl Default for Args {
    /// All options off and no values given.
    fn default() -> (a: Args)
        ensures
            !a.hint && !a.tty && !a.random && !a.difficult && !a.stats,
            a.word is None && a.day is None && a.seed is None,
            a.final_set is None && a.acceptable_set is None,
            a.state is None && a.config is None,
    {
        Args {
            hint: false,
            tty: false,
            word: None,
            random: false,
            difficult: false,
            stats: false,
            day: None,
            seed: None,
            final_set: None,
            acceptable_set: None,
            state: None,
            config: None,
        }
    }
}

impl Args {
    /// Folds a configuration file's options under these, validates and
    /// uppercases a fixed secret word, turns a given seed or day into
    /// random mode, fills in the default day and seed, and rejects a
    /// fixed word in random mode. On an error, leaves the options as
    /// they were.
    pub fn refine(&mut self, alt: Option<Args>) -> (r: Result<(), GameError>)
        ensures
            ({
                let m = spec_merged(*old(self), alt);
                let rand2 = m.random || m.seed is Some || m.day is Some;
                &&& (r == Result::<(), GameError>::Err(GameError::InvalidLength)) == (m.word
                    is Some && upper_seq(m.word->0@).len() != LEN)
                &&& (r == Result::<(), GameError>::Err(GameError::InvalidAlphabet)) == (m.word
                    is Some && upper_seq(m.word->0@).len() == LEN && !is_word(upper_seq(m.word->0@)))
                &&& (r == Result::<(), GameError>::Err(GameError::WordWithRandom)) == (m.word
                    is Some && is_word(upper_seq(m.word->0@)) && rand2)
                &&& (r is Ok) == !(m.word is Some && (!is_word(upper_seq(m.word->0@)) || rand2))
                &&& (r is Err ==> *final(self) == *old(self))
                &&& (r is Ok ==> {
                    &&& final(self).hint == m.hint
                    &&& final(self).tty == m.tty
                    &&& final(self).difficult == m.difficult
                    &&& final(self).stats == m.stats
                    &&& final(self).final_set == m.final_set
                    &&& final(self).acceptable_set == m.acceptable_set
                    &&& final(self).state == m.state
                    &&& final(self).config == m.config
                    &&& final(self).random == rand2
                    &&& final(self).day == first_some(m.day, Some(1i32))
                    &&& final(self).seed == first_some(m.seed, Some(0u64))
                    &&& (final(self).word is Some) == (m.word is Some)
                    &&& (m.word is Some ==> final(self).word->0@ == upper_seq(m.word->0@))
                })
            }),
    {
        let (b_word, b_random, b_difficult, b_stats, b_day, b_seed, b_fs, b_as, b_st, b_cfg) =
            match alt {
            None => (None, false, false, false, None, None, None, None, None, None),
            Some(b) => (
                b.word,
                b.random,
                b.difficult,
                b.stats,
                b.day,
                b.seed,
                b.final_set,
                b.acceptable_set,
                b.state,
                b.config,
            ),
        };
        let m_word: Option<String> = match &self.word {
            Some(w) => Some(w.clone()),
            None => b_word,
        };
        let m_random = self.random || b_random;
        let m_difficult = self.difficult || b_difficult;
        let m_stats = self.stats || b_stats;
        let m_day: Option<i32> = if self.day.is_some() {
            self.day
        } else {
            b_day
        };
        let m_seed: Option<u64> = if self.seed.is_some() {
            self.seed
        } else {
            b_seed
        };
        let m_fs: Option<String> = match &self.final_set {
            Some(s) => Some(s.clone()),
            None => b_fs,
        };
        let m_as: Option<String> = match &self.acceptable_set {
            Some(s) => Some(s.clone()),
            None => b_as,
        };
        let m_st: Option<String> = match &self.state {
            Some(s) => Some(s.clone()),
            None => b_st,
        };
        let m_cfg: Option<String> = match &self.config {
            Some(s) => Some(s.clone()),
            None => b_cfg,
        };
        let word2: Option<String> = match &m_word {
            Some(w) => {
                match read_word(w.as_str(), None) {
                    Ok(u) => Some(u),
                    Err(e) => {
                        return Err(e);
                    },
                }
            },
            None => None,
        };
        let rand2 = m_random || m_seed.is_some() || m_day.is_some();
        if rand2 && word2.is_some() {
            return Err(GameError::WordWithRandom);
        }
        let day2: Option<i32> = if m_day.is_some() {
            m_day
        } else {
            Some(1)
        };
        let seed2: Option<u64> = if m_seed.is_some() {
            m_seed
        } else {
            Some(0)
        };
        *self = Args {
            hint: self.hint,
            tty: self.tty,
            word: word2,
            random: rand2,
            difficult: m_difficult,
            stats: m_stats,
            day: day2,
            seed: seed2,
            final_set: m_fs,
            acceptable_set: m_as,
            state: m_st,
            config: m_cfg,
        };
        Ok(())
    }
}

} // verus!
