//! Aggregate statistics over archived rounds: win and loss counts, guesses
//! spent on wins, and the most-used guess words.

use vstd::prelude::*;

use crate::game::{Game, State};
use crate::letters::ROUNDS;

verus! {

/// Append-only log of finished rounds, with a running round counter.
pub struct Stats {
    pub total_rounds: i32,
    pub games: Vec<State>,
}

/// The archived round was won: its last guess equals its secret.
pub open spec fn state_won(s: State) -> bool {
    s.guesses@.len() > 0 && s.guesses@.last()@ == s.answer@
}

/// Won rounds among the first `n` archived.
pub open spec fn wins_upto(games: Seq<State>, n: int) -> int
    decreases n,
{
    if n <= 0 {
        0
    } else {
        wins_upto(games, n - 1) + if state_won(games[n - 1]) {
            1int
        } else {
            0int
        }
    }
}

/// Won rounds among all archived.
pub open spec fn spec_wins(games: Seq<State>) -> int {
    wins_upto(games, games.len() as int)
}

/// Guesses spent in won rounds among the first `n` archived.
pub open spec fn win_guesses_upto(games: Seq<State>, n: int) -> int
    decreases n,
{
    if n <= 0 {
        0
    } else {
        win_guesses_upto(games, n - 1) + if state_won(games[n - 1]) {
            games[n - 1].guesses@.len() as int
        } else {
            0int
        }
    }
}

/// Guesses spent in won rounds among all archived.
pub open spec fn spec_win_guesses(games: Seq<State>) -> int {
    win_guesses_upto(games, games.len() as int)
}

/// All guesses of the first `n` archived rounds, in submission order.
pub open spec fn guesses_upto(games: Seq<State>, n: int) -> Seq<String>
    decreases n,
{
    if n <= 0 {
        Seq::empty()
    } else {
        guesses_upto(games, n - 1) + games[n - 1].guesses@
    }
}

/// All guesses of all archived rounds, in submission order.
pub open spec fn all_guesses(games: Seq<State>) -> Seq<String> {
    guesses_upto(games, games.len() as int)
}

/// How often word `w` occurs among the first `n` entries of `gs`.
pub open spec fn matches_upto(gs: Seq<String>, w: Seq<char>, n: int) -> int
    decreases n,
{
    if n <= 0 {
        0
    } else {
        matches_upto(gs, w, n - 1) + if gs[n - 1]@ == w {
            1int
        } else {
            0int
        }
    }
}

/// How often word `w` was guessed across all archived rounds.
pub open spec fn tally(games: Seq<State>, w: Seq<char>) -> int {
    matches_upto(all_guesses(games), w, all_guesses(games).len() as int)
}

/// `a` is lexicographically before `b`, by character scalar values.
pub open spec fn lex_lt(a: Seq<char>, b: Seq<char>) -> bool
    decreases a.len(),
{
    if a.len() == 0 {
        b.len() > 0
    } else if b.len() == 0 {
        false
    } else if (a[0] as u32) < (b[0] as u32) {
        true
    } else if (a[0] as u32) == (b[0] as u32) {
        lex_lt(a.drop_first(), b.drop_first())
    } else {
        false
    }
}

/// Entry `(w1, c1)` is listed before `(w2, c2)`: the higher count first,
/// ties broken by the lexicographically larger word first.
pub open spec fn pair_before(w1: Seq<char>, c1: int, w2: Seq<char>, c2: int) -> bool {
    c1 > c2 || (c1 == c2 && lex_lt(w2, w1))
}

/// Won counts lie between zero and the prefix length.
pub proof fn lemma_wins_upto_bounds(games: Seq<State>, n: int)
    requires
        0 <= n,
    ensures
        0 <= wins_upto(games, n) <= n,
    decreases n,
{
    if n > 0 {
        lemma_wins_upto_bounds(games, n - 1);
    }
}

/// With every round at most `ROUNDS` guesses long, the guesses spent on
/// wins lie between zero and six per round.
pub proof fn lemma_win_guesses_upto_bounds(games: Seq<State>, n: int)
    requires
        0 <= n <= games.len(),
        forall|k: int| 0 <= k < games.len() ==> #[trigger] games[k].guesses@.len() <= ROUNDS,
    ensures
        0 <= win_guesses_upto(games, n) <= 6 * n,
    decreases n,
{
    if n > 0 {
        lemma_win_guesses_upto_bounds(games, n - 1);
    }
}

/// Word counts lie between zero and the prefix length.
pub proof fn lemma_matches_upto_bounds(gs: Seq<String>, w: Seq<char>, n: int)
    requires
        0 <= n,
    ensures
        0 <= matches_upto(gs, w, n) <= n,
    decreases n,
{
    if n > 0 {
        lemma_matches_upto_bounds(gs, w, n - 1);
    }
}

/// A position at which a positively counted word occurs.
pub proof fn lemma_matches_witness(gs: Seq<String>, w: Seq<char>, n: int) -> (j: int)
    requires
        0 <= n,
        matches_upto(gs, w, n) > 0,
    ensures
        0 <= j < n,
        gs[j]@ == w,
    decreases n,
{
    if gs[n - 1]@ == w {
        n - 1
    } else {
        lemma_matches_witness(gs, w, n - 1)
    }
}

/// The lexicographic order is total on distinct words.
pub proof fn lemma_lex_total(a: Seq<char>, b: Seq<char>)
    requires
        a != b,
    ensures
        lex_lt(a, b) || lex_lt(b, a),
    decreases a.len(),
{
    if a.len() == 0 {
        if b.len() == 0 {
            assert(a =~= b);
        }
    } else if b.len() == 0 {
    } else if (a[0] as u32) == (b[0] as u32) {
        vstd::utf8::char_u32_cast(a[0], a[0] as u32);
        vstd::utf8::char_u32_cast(b[0], b[0] as u32);
        assert(a[0] == b[0]);
        if a.drop_first() == b.drop_first() {
            assert(a.drop_first().len() == a.len() - 1);
            assert(b.drop_first().len() == b.len() - 1);
            assert(a.len() == b.len());
            assert forall|i: int| 0 <= i < a.len() implies a[i] == b[i] by {
                if i > 0 {
                    assert(a[i] == a.drop_first()[i - 1]);
                    assert(b[i] == b.drop_first()[i - 1]);
                }
            }
            assert(a =~= b);
        }
        lemma_lex_total(a.drop_first(), b.drop_first());
    }
}

/// The lexicographic order never holds in both directions.
pub proof fn lemma_lex_asym(a: Seq<char>, b: Seq<char>)
    ensures
        !(lex_lt(a, b) && lex_lt(b, a)),
    decreases a.len(),
{
    if a.len() > 0 && b.len() > 0 && (a[0] as u32) == (b[0] as u32) {
        lemma_lex_asym(a.drop_first(), b.drop_first());
    }
}

/// The lexicographic order is transitive.
pub proof fn lemma_lex_trans(a: Seq<char>, b: Seq<char>, c: Seq<char>)
    requires
        lex_lt(a, b),
        lex_lt(b, c),
    ensures
        lex_lt(a, c),
    decreases a.len(),
{
    if a.len() > 0 {
        if (a[0] as u32) == (b[0] as u32) && (b[0] as u32) == (c[0] as u32) {
            lemma_lex_trans(a.drop_first(), b.drop_first(), c.drop_first());
        }
    }
}

/// The listing order is total on entries with distinct words.
pub proof fn lemma_pair_total(w1: Seq<char>, c1: int, w2: Seq<char>, c2: int)
    requires
        w1 != w2,
    ensures
        pair_before(w1, c1, w2, c2) || pair_before(w2, c2, w1, c1),
{
    if c1 == c2 {
        lemma_lex_total(w1, w2);
    }
}

/// The listing order is transitive.
pub proof fn lemma_pair_trans(
    w1: Seq<char>,
    c1: int,
    w2: Seq<char>,
    c2: int,
    w3: Seq<char>,
    c3: int,
)
    requires
        pair_before(w1, c1, w2, c2),
        pair_before(w2, c2, w3, c3),
    ensures
        pair_before(w1, c1, w3, c3),
{
    if c1 == c2 && c2 == c3 {
        lemma_lex_trans(w3, w2, w1);
    }
}

/// While the first `i` characters agree in scalar value, the lexicographic
/// order is decided by what follows them.
proof fn lemma_lex_skip(a: Seq<char>, b: Seq<char>, i: int)
    requires
        0 <= i <= a.len(),
        i <= b.len(),
        forall|j: int| 0 <= j < i ==> (#[trigger] a[j] as u32) == (b[j] as u32),
    ensures
        lex_lt(a, b) == lex_lt(a.skip(i), b.skip(i)),
    decreases i,
{
    if i == 0 {
        assert(a.skip(0) =~= a);
        assert(b.skip(0) =~= b);
    } else {
        assert((a[0] as u32) == (b[0] as u32));
        assert forall|j: int| 0 <= j < i - 1 implies (#[trigger] (a.drop_first()[j] as u32)) == (
        b.drop_first()[j] as u32) by {
            assert(a.drop_first()[j] == a[j + 1]);
            assert(b.drop_first()[j] == b[j + 1]);
        }
        lemma_lex_skip(a.drop_first(), b.drop_first(), i - 1);
        assert(a.drop_first().skip(i - 1) =~= a.skip(i));
        assert(b.drop_first().skip(i - 1) =~= b.skip(i));
    }
}

/// Whether `x` comes lexicographically before `y`, by character scalar
/// values; for ASCII words this is the usual string order.
#[verifier::loop_isolation(false)]
pub fn lex_lt_str(x: &String, y: &String) -> (r: bool)
    ensures
        r == lex_lt(x@, y@),
{
    let xl = x.as_str().unicode_len();
    let yl = y.as_str().unicode_len();
    let mut i: usize = 0;
    while i < xl && i < yl
        invariant
            i <= xl,
            i <= yl,
            xl == x@.len(),
            yl == y@.len(),
            forall|j: int| 0 <= j < i ==> (#[trigger] (x@[j] as u32)) == (y@[j] as u32),
        decreases xl - i,
    {
        let cx = x.as_str().get_char(i);
        let cy = y.as_str().get_char(i);
        let ux = cx as u32;
        let uy = cy as u32;
        if ux != uy {
            proof {
                lemma_lex_skip(x@, y@, i as int);
                assert(x@.skip(i as int).len() == x@.len() - i);
                assert(y@.skip(i as int).len() == y@.len() - i);
                assert(x@.skip(i as int)[0] == x@[i as int]);
                assert(y@.skip(i as int)[0] == y@[i as int]);
            }
            return ux < uy;
        }
        i += 1;
    }
    proof {
        lemma_lex_skip(x@, y@, i as int);
        assert(x@.skip(i as int).len() == x@.len() - i);
        assert(y@.skip(i as int).len() == y@.len() - i);
    }
    xl < yl
}

/// Compares `(s1, i1)` and `(s2, i2)` for the listing order of
/// `feed_words`: `Greater` when the first entry is listed earlier, so that
/// sorting ascending by this comparison and reversing lists entries
/// highest count first, ties broken by descending word.
pub fn stat_cmp(s1: &String, i1: i32, s2: &String, i2: i32) -> (r: core::cmp::Ordering)
    ensures
        (r == core::cmp::Ordering::Greater) == pair_before(s1@, i1 as int, s2@, i2 as int),
        (r == core::cmp::Ordering::Less) == pair_before(s2@, i2 as int, s1@, i1 as int),
        (r == core::cmp::Ordering::Equal) == (i1 == i2 && !lex_lt(s1@, s2@) && !lex_lt(s2@, s1@)),
{
    proof {
        lemma_lex_asym(s1@, s2@);
    }
    if i1 < i2 {
        core::cmp::Ordering::Less
    } else if i1 > i2 {
        core::cmp::Ordering::Greater
    } else if lex_lt_str(s2, s1) {
        core::cmp::Ordering::Greater
    } else if lex_lt_str(s1, s2) {
        core::cmp::Ordering::Less
    } else {
        core::cmp::Ordering::Equal
    }
}

/// Whether the entry `(a0, a1)` is listed before the pair `(w, c)`.
fn pair_gt(a0: &String, a1: i32, w: &String, c: i32) -> (r: bool)
    ensures
        r == pair_before(a0@, a1 as int, w@, c as int),
{
    if a1 != c {
        a1 > c
    } else {
        lex_lt_str(w, a0)
    }
}

/// The index of the entry holding word `w`, if one does.
fn find_word(wl: &Vec<(String, i32)>, w: &String) -> (r: Option<usize>)
    ensures
        match r {
            Some(m) => m < wl@.len() && wl@[m as int].0@ == w@,
            None => forall|m: int| 0 <= m < wl@.len() ==> #[trigger] wl@[m].0@ != w@,
        },
{
    let mut m: usize = 0;
    while m < wl.len()
        invariant
            m <= wl@.len(),
            forall|j: int| 0 <= j < m ==> #[trigger] wl@[j].0@ != w@,
        decreases wl@.len() - m,
    {
        if wl[m].0.eq(w) {
            return Some(m);
        }
        m += 1;
    }
    None
}

/// The entries are listed in order: higher counts first, ties broken by
/// the lexicographically larger word first.
pub open spec fn listed(s: Seq<(String, i32)>) -> bool {
    forall|m1: int, m2: int|
        0 <= m1 < m2 < s.len() ==> pair_before(
            (#[trigger] s[m1]).0@,
            s[m1].1 as int,
            (#[trigger] s[m2]).0@,
            s[m2].1 as int,
        )
}

/// No word appears in two entries.
pub open spec fn distinct_words(s: Seq<(String, i32)>) -> bool {
    forall|m1: int, m2: int|
        0 <= m1 < m2 < s.len() ==> (#[trigger] s[m1]).0@ != (#[trigger] s[m2]).0@
}

/// Where the listing order puts the pair `(w, c)` in an ordered list: the
/// index of the first entry it is listed before, or the length.
#[verifier::loop_isolation(false)]
fn insert_pos(sorted: &Vec<(String, i32)>, w: &String, c: i32) -> (p: usize)
    ensures
        p <= sorted@.len(),
        forall|j: int|
            0 <= j < p ==> pair_before((#[trigger] sorted@[j]).0@, sorted@[j].1 as int, w@, c as int),
        p < sorted@.len() ==> !pair_before(
            sorted@[p as int].0@,
            sorted@[p as int].1 as int,
            w@,
            c as int,
        ),
{
    let mut p: usize = 0;
    while p < sorted.len()
        invariant
            p <= sorted@.len(),
            forall|j: int|
                0 <= j < p ==> pair_before(
                    (#[trigger] sorted@[j]).0@,
                    sorted@[j].1 as int,
                    w@,
                    c as int,
                ),
        decreases sorted@.len() - p,
    {
        let before = pair_gt(&sorted[p].0, sorted[p].1, w, c);
        if !before {
            return p;
        }
        p += 1;
    }
    p
}

impl Stats {
    /// Well-formedness: the counter equals the number of archived rounds,
    /// and no archived round holds more guesses than a round allows.
    pub open spec fn wf(self) -> bool {
        &&& self.total_rounds as int == self.games@.len()
        &&& forall|k: int|
            0 <= k < self.games@.len() ==> #[trigger] self.games@[k].guesses@.len() <= ROUNDS
    }

    pub fn new() -> (s: Stats)
        ensures
            s.wf(),
            s.total_rounds == 0,
            s.games@.len() == 0,
    {
        Stats { total_rounds: 0, games: Vec::new() }
    }

    /// Archives a round's snapshot and bumps the round counter.
    pub fn store_game(&mut self, game: Game)
        requires
            old(self).wf(),
            game.wf(),
            old(self).total_rounds < i32::MAX,
        ensures
            final(self).wf(),
            final(self).total_rounds == old(self).total_rounds + 1,
            final(self).games@ == old(self).games@.push(game.state),
    {
        self.total_rounds = self.total_rounds + 1;
        self.games.push(game.state);
    }

    /// Win count, loss count, and the guesses spent in won rounds. The
    /// average guess count of won rounds is the third component divided by
    /// the first; reporting layers do that division.
    #[verifier::loop_isolation(false)]
    pub fn feed_stats(&self) -> (r: (i32, i32, usize))
        requires
            self.wf(),
            6 * self.games@.len() <= usize::MAX,
        ensures
            r.0 as int == spec_wins(self.games@),
            r.1 as int == self.total_rounds - spec_wins(self.games@),
            r.2 as int == spec_win_guesses(self.games@),
    {
        let mut wins: i32 = 0;
        let mut wguess: usize = 0;
        let mut k: usize = 0;
        while k < self.games.len()
            invariant
                k <= self.games@.len(),
                wins as int == wins_upto(self.games@, k as int),
                wguess as int == win_guesses_upto(self.games@, k as int),
            decreases self.games@.len() - k,
        {
            proof {
                lemma_wins_upto_bounds(self.games@, k as int);
                lemma_win_guesses_upto_bounds(self.games@, k as int);
            }
            let g = &self.games[k];
            let l = g.guesses.len();
            if l > 0 && g.guesses[l - 1].eq(&g.answer) {
                wins = wins + 1;
                wguess = wguess + l;
            }
            k += 1;
        }
        proof {
            lemma_wins_upto_bounds(self.games@, self.games@.len() as int);
        }
        (wins, self.total_rounds - wins, wguess)
    }

    /// The guess words used most often across all archived rounds: up to
    /// five `(word, count)` entries, most-used first, ties broken by the
    /// lexicographically larger word first. Each entry carries the word's
    /// exact use count, no word appears twice, and every guessed word left
    /// out is listed no earlier than the last entry kept.
    #[verifier::rlimit(30)]
    pub fn feed_words(&self) -> (r: Vec<(String, i32)>)
        requires
            self.wf(),
            6 * self.games@.len() < 0x8000_0000,
        ensures
            r@.len() <= 5,
            forall|m: int|
                0 <= m < r@.len() ==> #[trigger] (r@[m].1 as int) == tally(self.games@, r@[m].0@)
                    && 1 <= r@[m].1,
            listed(r@),
            distinct_words(r@),
            forall|w: Seq<char>|
                #![trigger tally(self.games@, w)]
                (tally(self.games@, w) > 0 && (forall|m: int|
                    0 <= m < r@.len() ==> #[trigger] r@[m].0@ != w)) ==> (r@.len() == 5
                    && pair_before(r@[4].0@, r@[4].1 as int, w, tally(self.games@, w))),
    {
        let ghost games_seq = self.games@;
        let all = flatten_guesses(&self.games);
        let wl = tally_words(&all);
        let ghost full = wl@;
        let sorted = sort_entries(wl);
        let ghost sorted_seq = sorted@;
        let mut res = sorted;
        res.truncate(5);
        proof {
            assert(all@ == all_guesses(games_seq));
            assert forall|m: int| 0 <= m < res@.len() implies #[trigger] (res@[m].1 as int)
                == tally(games_seq, res@[m].0@) && 1 <= res@[m].1 by {
                assert(res@[m] == sorted_seq[m]);
                let m2 = lemma_entry_index(full, full.len() as int, res@[m]);
            }
            assert forall|m1: int, m2: int| 0 <= m1 < m2 < res@.len() implies pair_before(
                (#[trigger] res@[m1]).0@,
                res@[m1].1 as int,
                (#[trigger] res@[m2]).0@,
                res@[m2].1 as int,
            ) by {
                assert(res@[m1] == sorted_seq[m1]);
                assert(res@[m2] == sorted_seq[m2]);
            }
            assert forall|m1: int, m2: int| 0 <= m1 < m2 < res@.len() implies (
            #[trigger] res@[m1]).0@ != (#[trigger] res@[m2]).0@ by {
                assert(res@[m1] == sorted_seq[m1]);
                assert(res@[m2] == sorted_seq[m2]);
            }
            assert forall|w: Seq<char>|
                #![trigger tally(games_seq, w)]
                (tally(games_seq, w) > 0 && (forall|m: int|
                    0 <= m < res@.len() ==> #[trigger] res@[m].0@ != w)) implies (res@.len() == 5
                    && pair_before(res@[4].0@, res@[4].1 as int, w, tally(games_seq, w))) by {
                let j = lemma_matches_witness(all@, w, all@.len() as int);
                let mw = lemma_word_index(full, full.len() as int, w);
                let ms = lemma_entry_index(sorted_seq, sorted_seq.len() as int, full[mw]);
                if ms < res@.len() {
                    assert(res@[ms] == sorted_seq[ms]);
                    assert(res@[ms].0@ == w);
                } else {
                    assert(res@.len() == 5);
                    assert(res@[4] == sorted_seq[4]);
                    assert(pair_before(
                        sorted_seq[4].0@,
                        sorted_seq[4].1 as int,
                        sorted_seq[ms].0@,
                        sorted_seq[ms].1 as int,
                    ));
                }
            }
        }
        res
    }
}

/// Some entry among the first `n` holds word `w`.
pub open spec fn has_word_upto(s: Seq<(String, i32)>, n: int, w: Seq<char>) -> bool
    decreases n,
{
    n > 0 && (s[n - 1].0@ == w || has_word_upto(s, n - 1, w))
}

/// An index among the first `n` whose entry holds word `w`.
proof fn lemma_word_index(s: Seq<(String, i32)>, n: int, w: Seq<char>) -> (m: int)
    requires
        has_word_upto(s, n, w),
    ensures
        0 <= m < n,
        s[m].0@ == w,
    decreases n,
{
    if s[n - 1].0@ == w {
        n - 1
    } else {
        lemma_word_index(s, n - 1, w)
    }
}

/// An entry among the first `n` witnesses its own word.
proof fn lemma_word_at(s: Seq<(String, i32)>, n: int, m: int)
    requires
        0 <= m < n,
    ensures
        has_word_upto(s, n, s[m].0@),
    decreases n,
{
    if m < n - 1 {
        lemma_word_at(s, n - 1, m);
    }
}

/// Lists that agree on their words up to `n` hold the same words there.
proof fn lemma_word_congruent(
    s1: Seq<(String, i32)>,
    s2: Seq<(String, i32)>,
    n: int,
    w: Seq<char>,
)
    requires
        0 <= n,
        forall|i: int| 0 <= i < n ==> (#[trigger] s1[i]).0@ == s2[i].0@,
    ensures
        has_word_upto(s1, n, w) == has_word_upto(s2, n, w),
    decreases n,
{
    if n > 0 {
        lemma_word_congruent(s1, s2, n - 1, w);
    }
}

/// Some entry among the first `n` equals `e`.
pub open spec fn has_entry_upto(s: Seq<(String, i32)>, n: int, e: (String, i32)) -> bool
    decreases n,
{
    n > 0 && (s[n - 1] == e || has_entry_upto(s, n - 1, e))
}

/// An index among the first `n` whose entry equals `e`.
proof fn lemma_entry_index(s: Seq<(String, i32)>, n: int, e: (String, i32)) -> (m: int)
    requires
        has_entry_upto(s, n, e),
    ensures
        0 <= m < n,
        s[m] == e,
    decreases n,
{
    if s[n - 1] == e {
        n - 1
    } else {
        lemma_entry_index(s, n - 1, e)
    }
}

/// An entry among the first `n` witnesses itself.
proof fn lemma_entry_at(s: Seq<(String, i32)>, n: int, m: int)
    requires
        0 <= m < n,
    ensures
        has_entry_upto(s, n, s[m]),
    decreases n,
{
    if m < n - 1 {
        lemma_entry_at(s, n - 1, m);
    }
}

/// All guesses of all archived rounds, flattened in submission order.
#[verifier::loop_isolation(false)]
fn flatten_guesses(games: &Vec<State>) -> (all: Vec<String>)
    requires
        forall|k: int| 0 <= k < games@.len() ==> #[trigger] games@[k].guesses@.len() <= ROUNDS,
    ensures
        all@ == all_guesses(games@),
        all@.len() <= 6 * games@.len(),
{
    let ghost games_seq = games@;
    let mut all: Vec<String> = Vec::new();
    let mut gi: usize = 0;
    while gi < games.len()
        invariant
            gi <= games_seq.len(),
            all@ == guesses_upto(games_seq, gi as int),
            all@.len() <= 6 * gi,
        decreases games_seq.len() - gi,
    {
        let g = &games[gi];
        let mut qi: usize = 0;
        while qi < g.guesses.len()
            invariant
                qi <= g.guesses@.len(),
                g.guesses@.len() <= 6,
                all@ == guesses_upto(games_seq, gi as int) + g.guesses@.subrange(0, qi as int),
                all@.len() <= 6 * gi + qi,
            decreases g.guesses@.len() - qi,
        {
            all.push(g.guesses[qi].clone());
            proof {
                assert(g.guesses@.subrange(0, qi as int + 1) =~= g.guesses@.subrange(
                    0,
                    qi as int,
                ).push(g.guesses@[qi as int]));
                assert(all@ =~= guesses_upto(games_seq, gi as int) + g.guesses@.subrange(
                    0,
                    qi as int + 1,
                ));
            }
            qi += 1;
        }
        proof {
            assert(g.guesses@.subrange(0, g.guesses@.len() as int) =~= g.guesses@);
            assert(all@ =~= guesses_upto(games_seq, gi as int + 1));
        }
        gi += 1;
    }
    all
}

/// One entry per distinct word of `all`, each with its exact number of
/// occurrences there.
#[verifier::loop_isolation(false)]
#[verifier::rlimit(30)]
fn tally_words(all: &Vec<String>) -> (wl: Vec<(String, i32)>)
    requires
        all@.len() < 0x8000_0000,
    ensures
        distinct_words(wl@),
        forall|m: int|
            0 <= m < wl@.len() ==> #[trigger] (wl@[m].1 as int) == matches_upto(
                all@,
                wl@[m].0@,
                all@.len() as int,
            ) && 1 <= wl@[m].1,
        forall|j: int|
            #![trigger all@[j]]
            0 <= j < all@.len() ==> has_word_upto(wl@, wl@.len() as int, all@[j]@),
{
    let mut wl: Vec<(String, i32)> = Vec::new();
    let mut k: usize = 0;
    while k < all.len()
        invariant
            k <= all@.len(),
            distinct_words(wl@),
            forall|m: int|
                0 <= m < wl@.len() ==> #[trigger] (wl@[m].1 as int) == matches_upto(
                    all@,
                    wl@[m].0@,
                    k as int,
                ) && 1 <= wl@[m].1,
            forall|j: int|
                #![trigger all@[j]]
                0 <= j < k ==> has_word_upto(wl@, wl@.len() as int, all@[j]@),
        decreases all@.len() - k,
    {
        let w: &String = &all[k];
        let ghost wl0 = wl@;
        let opt = find_word(&wl, w);
        match opt {
            Option::Some(m) => {
                proof {
                    lemma_matches_upto_bounds(all@, wl@[m as int].0@, k as int);
                }
                let s0 = wl[m].0.clone();
                let c0 = wl[m].1;
                wl[m] = (s0, c0 + 1);
            },
            Option::None => {
                proof {
                    if matches_upto(all@, w@, k as int) > 0 {
                        let j = lemma_matches_witness(all@, w@, k as int);
                        let m0 = lemma_word_index(wl@, wl@.len() as int, all@[j]@);
                    }
                    lemma_matches_upto_bounds(all@, w@, k as int);
                }
                wl.push((w.clone(), 1));
            },
        }
        proof {
            assert forall|m: int| 0 <= m < wl@.len() implies #[trigger] (wl@[m].1 as int)
                == matches_upto(all@, wl@[m].0@, k as int + 1) && 1 <= wl@[m].1 by {
                if m < wl0.len() {
                    assert(wl@[m].0@ == wl0[m].0@);
                }
            }
            assert forall|j: int|
                #![trigger all@[j]]
                0 <= j < k + 1 implies has_word_upto(wl@, wl@.len() as int, all@[j]@) by {
                match opt {
                    Option::Some(m) => {
                        if j < k {
                            assert(forall|i: int|
                                0 <= i < wl0.len() ==> (#[trigger] wl0[i]).0@ == wl@[i].0@);
                            lemma_word_congruent(wl0, wl@, wl0.len() as int, all@[j]@);
                        } else {
                            lemma_word_at(wl@, wl@.len() as int, m as int);
                        }
                    },
                    Option::None => {
                        if j < k {
                            assert(forall|i: int|
                                0 <= i < wl0.len() ==> (#[trigger] wl0[i]).0@ == wl@[i].0@);
                            lemma_word_congruent(wl0, wl@, wl0.len() as int, all@[j]@);
                        } else {
                            lemma_word_at(wl@, wl@.len() as int, wl@.len() as int - 1);
                        }
                    },
                }
            }
        }
        k += 1;
    }
    wl
}

/// The entries of `wl`, arranged into listing order by insertion.
#[verifier::loop_isolation(false)]
#[verifier::rlimit(50)]
fn sort_entries(wl: Vec<(String, i32)>) -> (sorted: Vec<(String, i32)>)
    requires
        distinct_words(wl@),
    ensures
        sorted@.len() == wl@.len(),
        listed(sorted@),
        distinct_words(sorted@),
        forall|m: int|
            #![trigger sorted@[m]]
            0 <= m < sorted@.len() ==> has_entry_upto(wl@, wl@.len() as int, sorted@[m]),
        forall|m2: int|
            #![trigger wl@[m2]]
            0 <= m2 < wl@.len() ==> has_entry_upto(sorted@, sorted@.len() as int, wl@[m2]),
{
    let ghost full = wl@;
    let mut sorted: Vec<(String, i32)> = Vec::new();
    let mut t: usize = 0;
    while t < wl.len()
        invariant
            t <= full.len(),
            sorted@.len() == t as int,
            listed(sorted@),
            distinct_words(sorted@),
            forall|m: int|
                #![trigger sorted@[m]]
                0 <= m < sorted@.len() ==> has_entry_upto(full, t as int, sorted@[m]),
            forall|m2: int|
                #![trigger full[m2]]
                0 <= m2 < t ==> has_entry_upto(sorted@, sorted@.len() as int, full[m2]),
        decreases full.len() - t,
    {
        let ghost sorted0 = sorted@;
        let w0 = wl[t].0.clone();
        let c0 = wl[t].1;
        let p = insert_pos(&sorted, &w0, c0);
        proof {
            assert forall|m: int| 0 <= m < sorted@.len() implies (#[trigger] sorted@[m]).0@
                != w0@ by {
                let m2 = lemma_entry_index(full, t as int, sorted@[m]);
                assert(full[m2].0@ != full[t as int].0@);
            }
        }
        sorted.insert(p, (w0, c0));
        proof {
            let e = (w0, c0);
            assert(sorted@ == sorted0.insert(p as int, e));
            assert(e == full[t as int]);
            assert forall|m: int| 0 <= m < sorted@.len() implies (#[trigger] sorted@[m]) == (if m
                < p {
                sorted0[m]
            } else if m == p {
                e
            } else {
                sorted0[m - 1]
            }) by {}
            if (p as int) < sorted0.len() {
                lemma_pair_total(e.0@, e.1 as int, sorted0[p as int].0@, sorted0[p as int].1 as int);
            }
            assert forall|m1: int, m2: int| 0 <= m1 < m2 < sorted@.len() implies pair_before(
                (#[trigger] sorted@[m1]).0@,
                sorted@[m1].1 as int,
                (#[trigger] sorted@[m2]).0@,
                sorted@[m2].1 as int,
            ) by {
                if m1 == p && m2 > p {
                    if m2 - 1 > p {
                        lemma_pair_trans(
                            e.0@,
                            e.1 as int,
                            sorted0[p as int].0@,
                            sorted0[p as int].1 as int,
                            sorted0[m2 - 1].0@,
                            sorted0[m2 - 1].1 as int,
                        );
                    }
                }
            }
            assert forall|m1: int, m2: int| 0 <= m1 < m2 < sorted@.len() implies (
            #[trigger] sorted@[m1]).0@ != (#[trigger] sorted@[m2]).0@ by {}
            assert forall|m: int|
                #![trigger sorted@[m]]
                0 <= m < sorted@.len() implies has_entry_upto(full, t as int + 1, sorted@[m]) by {
                if m == p {
                    lemma_entry_at(full, t as int + 1, t as int);
                } else {
                    let mm = if m < p {
                        m
                    } else {
                        m - 1
                    };
                    let m2 = lemma_entry_index(full, t as int, sorted0[mm]);
                    lemma_entry_at(full, t as int + 1, m2);
                }
            }
            assert forall|m2: int|
                #![trigger full[m2]]
                0 <= m2 < t + 1 implies has_entry_upto(sorted@, sorted@.len() as int, full[m2]) by {
                if m2 == t {
                    lemma_entry_at(sorted@, sorted@.len() as int, p as int);
                } else {
                    let m0 = lemma_entry_index(sorted0, sorted0.len() as int, full[m2]);
                    if m0 < p {
                        assert(sorted@[m0] == full[m2]);
                        lemma_entry_at(sorted@, sorted@.len() as int, m0);
                    } else {
                        assert(sorted@[m0 + 1] == full[m2]);
                        lemma_entry_at(sorted@, sorted@.len() as int, m0 + 1);
                    }
                }
            }
        }
        t += 1;
    }
    sorted
}

} // verus!
