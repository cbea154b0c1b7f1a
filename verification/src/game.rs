//! Core game data: per-position knowledge, the wrong-guess set, immutable
//! turn snapshots, and the pattern-matching predicate that decides whether a
//! dictionary word is still consistent with what is known.

use vstd::prelude::*;

use crate::words::copy_word;

verus! {

/// Per-position knowledge about the secret word: either still unknown, or a
/// confirmed character.
#[derive(Clone, Copy, PartialEq, Eq, Structural)]
pub enum Letter {
    Unknown,
    Character(char),
}

impl Letter {
    /// True exactly when this position is still unresolved.
    pub fn is_unknown(self) -> (r: bool)
        ensures
            r == (self == Letter::Unknown),
    {
        match self {
            Letter::Unknown => true,
            Letter::Character(_) => false,
        }
    }
}

/// The evolving pattern: one `Letter` per position of the secret word.
#[derive(Clone)]
pub struct GuessState(pub Vec<Letter>);

impl GuessState {
    /// A fresh pattern of `length` positions, all unknown.
    pub fn new(length: usize) -> (s: Self)
        ensures
            s.0@.len() == length,
            forall|i: int| 0 <= i < length ==> s.0@[i] == Letter::Unknown,
    {
        let mut letters: Vec<Letter> = Vec::new();
        let mut k: usize = 0;
        while k < length
            invariant
                k <= length,
                letters@.len() == k,
                forall|i: int| 0 <= i < k ==> letters@[i] == Letter::Unknown,
            decreases length - k,
        {
            letters.push(Letter::Unknown);
            k = k + 1;
        }
        GuessState(letters)
    }

    /// The positions that are still unknown, in increasing order.
    pub fn unknown_indices(&self) -> (r: Vec<usize>)
        ensures
            r@ == unknowns_of(self.0@),
    {
        let mut r: Vec<usize> = Vec::new();
        let mut k: usize = 0;
        proof {
            assert(self.0@.take(0) =~= Seq::<Letter>::empty());
        }
        while k < self.0.len()
            invariant
                k <= self.0@.len(),
                r@ == unknowns_of(self.0@.take(k as int)),
            decreases self.0@.len() - k,
        {
            proof {
                assert(self.0@.take(k as int + 1).drop_last() =~= self.0@.take(k as int));
                assert(self.0@.take(k as int + 1).last() == self.0@[k as int]);
            }
            if self.0[k].is_unknown() {
                r.push(k);
            }
            k = k + 1;
        }
        proof {
            assert(self.0@.take(self.0@.len() as int) =~= self.0@);
        }
        r
    }

    /// True when no position is unknown any more: the word is fully revealed.
    pub fn is_complete(&self) -> (r: bool)
        ensures
            r == !self.0@.contains(Letter::Unknown),
    {
        let mut k: usize = 0;
        while k < self.0.len()
            invariant
                k <= self.0@.len(),
                forall|i: int| 0 <= i < k ==> self.0@[i] != Letter::Unknown,
            decreases self.0@.len() - k,
        {
            if self.0[k].is_unknown() {
                assert(self.0@.contains(Letter::Unknown));
                return false;
            }
            k = k + 1;
        }
        proof {
            false_contains_witness(self.0@);
        }
        true
    }

    /// True when some position already shows `c`.
    pub fn has_character(&self, c: char) -> (r: bool)
        ensures
            r == self.0@.contains(Letter::Character(c)),
    {
        let mut k: usize = 0;
        while k < self.0.len()
            invariant
                k <= self.0@.len(),
                forall|i: int| 0 <= i < k ==> self.0@[i] != Letter::Character(c),
            decreases self.0@.len() - k,
        {
            let hit = match self.0[k] {
                Letter::Character(d) => d == c,
                Letter::Unknown => false,
            };
            if hit {
                assert(self.0@.contains(Letter::Character(c)));
                return true;
            }
            k = k + 1;
        }
        proof {
            false_contains_witness_char(self.0@, c);
        }
        false
    }
}

proof fn false_contains_witness(s: Seq<Letter>)
    requires
        forall|i: int| 0 <= i < s.len() ==> s[i] != Letter::Unknown,
    ensures
        !s.contains(Letter::Unknown),
{
}

proof fn false_contains_witness_char(s: Seq<Letter>, c: char)
    requires
        forall|i: int| 0 <= i < s.len() ==> s[i] != Letter::Character(c),
    ensures
        !s.contains(Letter::Character(c)),
{
}

/// Characters confirmed to be entirely absent from the secret word.
#[derive(Clone)]
pub struct WrongGuesses(pub Vec<char>);

impl WrongGuesses {
    /// An empty wrong-guess set.
    pub fn new() -> (w: Self)
        ensures
            w.0@ =~= Seq::<char>::empty(),
    {
        WrongGuesses(Vec::new())
    }

    /// True when `c` has been confirmed absent.
    pub fn contains(&self, c: char) -> (r: bool)
        ensures
            r == self.0@.contains(c),
    {
        let mut k: usize = 0;
        while k < self.0.len()
            invariant
                k <= self.0@.len(),
                forall|i: int| 0 <= i < k ==> self.0@[i] != c,
            decreases self.0@.len() - k,
        {
            if self.0[k] == c {
                assert(self.0@.contains(c));
                return true;
            }
            k = k + 1;
        }
        false
    }

    /// Record `c` as absent; a character already recorded is not duplicated.
    pub fn insert(&mut self, c: char)
        ensures
            old(self).0@.contains(c) ==> final(self).0@ == old(self).0@,
            !old(self).0@.contains(c) ==> final(self).0@ == old(self).0@.push(c),
            final(self).0@.contains(c),
            forall|d: char| old(self).0@.contains(d) ==> final(self).0@.contains(d),
            forall|d: char| final(self).0@.contains(d) ==> d == c || old(self).0@.contains(d),
    {
        if !self.contains(c) {
            let ghost pre = self.0@;
            self.0.push(c);
            proof {
                assert(self.0@[pre.len() as int] == c);
                assert(self.0@.contains(c));
                assert forall|d: char| pre.contains(d) implies self.0@.contains(d) by {
                    let j = choose|j: int| 0 <= j < pre.len() && pre[j] == d;
                    assert(self.0@[j] == d);
                }
                assert forall|d: char| self.0@.contains(d) implies d == c || pre.contains(d) by {
                    let j = choose|j: int| 0 <= j < self.0@.len() && self.0@[j] == d;
                    if j < pre.len() {
                        assert(pre[j] == d);
                    }
                }
            }
        }
    }
}

/// An immutable snapshot of a turn: the pattern so far, the wrong guesses,
/// and the lives that remain (`None` for the unlimited-guess variant).
#[derive(Clone)]
pub struct ActiveState {
    pub guess: GuessState,
    pub wrong: WrongGuesses,
    pub lives: Option<u32>,
}

/// Whether a candidate word is consistent with a pattern and a wrong-guess
/// set: the lengths agree, no character of the word is confirmed absent, and
/// every revealed position shows exactly the word's character there.
pub open spec fn spec_matches(word: Seq<char>, pattern: Seq<Letter>, wrong: Seq<char>) -> bool {
    &&& word.len() == pattern.len()
    &&& forall|i: int| 0 <= i < word.len() ==> !wrong.contains(#[trigger] word[i])
    &&& forall|i: int|
        0 <= i < word.len() ==> (#[trigger] pattern[i] == Letter::Unknown || pattern[i]
            == Letter::Character(word[i]))
}

impl ActiveState {
    /// Consistency of this snapshot with `word`, ignoring lives.
    pub open spec fn spec_does_match(self, word: Seq<char>) -> bool {
        spec_matches(word, self.guess.0@, self.wrong.0@)
    }

    /// Decide whether `word` is still consistent with this snapshot.
    pub fn does_match(&self, word: &Vec<char>) -> (r: bool)
        ensures
            r == self.spec_does_match(word@),
    {
        if self.guess.0.len() != word.len() {
            return false;
        }
        let mut k: usize = 0;
        while k < word.len()
            invariant
                k <= word@.len(),
                word@.len() == self.guess.0@.len(),
                forall|i: int| 0 <= i < k ==> !self.wrong.0@.contains(#[trigger] word@[i]),
                forall|i: int|
                    0 <= i < k ==> (#[trigger] self.guess.0@[i] == Letter::Unknown
                        || self.guess.0@[i] == Letter::Character(word@[i])),
            decreases word@.len() - k,
        {
            let c = word[k];
            if self.wrong.contains(c) {
                return false;
            }
            let ok = match self.guess.0[k] {
                Letter::Unknown => true,
                Letter::Character(d) => d == c,
            };
            if !ok {
                return false;
            }
            k = k + 1;
        }
        true
    }
}

/// The indices of the still-unknown positions of a pattern, in increasing
/// order.
pub open spec fn unknowns_of(p: Seq<Letter>) -> Seq<usize>
    decreases p.len(),
{
    if p.len() == 0 {
        Seq::empty()
    } else if p.last() == Letter::Unknown {
        unknowns_of(p.drop_last()).push((p.len() - 1) as usize)
    } else {
        unknowns_of(p.drop_last())
    }
}

/// The unknown-index list is strictly increasing, lists exactly the unknown
/// positions, and is never longer than the pattern.
pub proof fn lemma_unknowns_of_props(p: Seq<Letter>)
    requires
        p.len() <= usize::MAX,
    ensures
        unknowns_of(p).len() <= p.len(),
        forall|a: int, b: int|
            0 <= a < b < unknowns_of(p).len() ==> unknowns_of(p)[a] < unknowns_of(p)[b],
        forall|j: int|
            0 <= j < unknowns_of(p).len() ==> unknowns_of(p)[j] < p.len() && p[#[trigger] unknowns_of(
                p,
            )[j] as int] == Letter::Unknown,
        forall|i: int|
            0 <= i < p.len() && p[i] == Letter::Unknown ==> unknowns_of(p).contains(i as usize),
    decreases p.len(),
{
    if p.len() > 0 {
        lemma_unknowns_of_props(p.drop_last());
        let u = unknowns_of(p);
        let du = unknowns_of(p.drop_last());
        assert(forall|i: int| 0 <= i < p.len() - 1 ==> p.drop_last()[i] == p[i]);
        if p.last() == Letter::Unknown {
            assert(u == du.push((p.len() - 1) as usize));
            assert(forall|j: int| 0 <= j < du.len() ==> u[j] == du[j]);
        } else {
            assert(u == du);
        }
        assert forall|j: int|
            0 <= j < u.len() implies u[j] < p.len() && p[#[trigger] u[j] as int]
            == Letter::Unknown by {
            if j < du.len() {
                assert(du[j] < p.drop_last().len());
                assert(p.drop_last()[du[j] as int] == Letter::Unknown);
            }
        }
        assert forall|a: int, b: int| 0 <= a < b < u.len() implies u[a] < u[b] by {
            if b < du.len() {
                assert(du[a] < du[b]);
            } else if b == du.len() && u.len() == du.len() + 1 {
                assert(du[a] < p.drop_last().len());
            }
        }
        assert forall|i: int|
            0 <= i < p.len() && p[i] == Letter::Unknown implies u.contains(i as usize) by {
            if i < p.len() - 1 {
                assert(du.contains(i as usize));
                let j = choose|j: int| 0 <= j < du.len() && du[j] == i as usize;
                assert(u[j] == i as usize);
            } else {
                assert(u.last() == i as usize);
            }
        }
    }
}

/// Membership of position `i` in an index list.
pub open spec fn idx_in(idxs: Seq<usize>, i: int) -> bool {
    exists|j: int| 0 <= j < idxs.len() && idxs[j] as int == i
}

/// The pattern with `c` revealed at the given positions; all other positions
/// keep what they showed.
pub open spec fn overlay_at(pattern: Seq<Letter>, c: char, idxs: Seq<usize>) -> Seq<Letter> {
    Seq::new(
        pattern.len(),
        |i: int|
            if idx_in(idxs, i) {
                Letter::Character(c)
            } else {
                pattern[i]
            },
    )
}

/// Copy a pattern into a fresh vector.
pub fn copy_letters(v: &Vec<Letter>) -> (r: Vec<Letter>)
    ensures
        r@ == v@,
{
    let mut r: Vec<Letter> = Vec::new();
    let mut k: usize = 0;
    while k < v.len()
        invariant
            k <= v@.len(),
            r@ == v@.take(k as int),
        decreases v@.len() - k,
    {
        r.push(v[k]);
        proof {
            assert(r@ =~= v@.take(k as int + 1));
        }
        k = k + 1;
    }
    proof {
        assert(r@ =~= v@);
    }
    r
}

/// Write `Character(c)` at each position named by `idxs`.
pub fn overlay_exec(pattern: &Vec<Letter>, c: char, idxs: &Vec<usize>) -> (r: Vec<Letter>)
    requires
        forall|t: int| 0 <= t < idxs@.len() ==> idxs@[t] < pattern@.len(),
    ensures
        r@ == overlay_at(pattern@, c, idxs@),
{
    let mut r = copy_letters(pattern);
    let mut t: usize = 0;
    proof {
        assert(r@ =~= overlay_at(pattern@, c, idxs@.take(0)));
    }
    while t < idxs.len()
        invariant
            t <= idxs@.len(),
            forall|q: int| 0 <= q < idxs@.len() ==> idxs@[q] < pattern@.len(),
            r@ == overlay_at(pattern@, c, idxs@.take(t as int)),
        decreases idxs@.len() - t,
    {
        let i = idxs[t];
        r[i] = Letter::Character(c);
        proof {
            assert forall|q: int|
                0 <= q < pattern@.len() implies r@[q] == overlay_at(
                pattern@,
                c,
                idxs@.take(t as int + 1),
            )[q] by {
                if q == i as int {
                    assert(idxs@.take(t as int + 1)[t as int] == i);
                    assert(idx_in(idxs@.take(t as int + 1), q));
                } else {
                    if idx_in(idxs@.take(t as int), q) {
                        let j = choose|j: int|
                            0 <= j < t && (#[trigger] idxs@.take(t as int)[j]) as int == q;
                        assert(idxs@.take(t as int + 1)[j] as int == q);
                        assert(idx_in(idxs@.take(t as int + 1), q));
                    } else if idx_in(idxs@.take(t as int + 1), q) {
                        let j = choose|j: int|
                            0 <= j < t + 1 && (#[trigger] idxs@.take(t as int + 1)[j]) as int == q;
                        assert(j < t);
                        assert(idxs@.take(t as int)[j] as int == q);
                    }
                }
            }
            assert(r@ =~= overlay_at(pattern@, c, idxs@.take(t as int + 1)));
        }
        t = t + 1;
    }
    proof {
        assert(idxs@.take(idxs@.len() as int) =~= idxs@);
    }
    r
}

/// Whether the lives counter still allows a wrong guess: unlimited lives
/// always do.
pub open spec fn lives_allow_mistake(lives: Option<u32>) -> bool {
    match lives {
        Option::Some(l) => l > 0,
        Option::None => true,
    }
}

/// The lives counter after one mistake.
pub open spec fn lives_after_mistake(lives: Option<u32>) -> Option<u32> {
    match lives {
        Option::Some(l) => Option::Some((l - 1) as u32),
        Option::None => Option::None,
    }
}

/// How a finished game ended.
pub enum GameOutcome {
    /// The pattern is complete, or the last remaining candidate was taken.
    Won,
    /// Lives ran out; the secret word is disclosed where one is known.
    Lost(Option<Vec<char>>),
    /// No candidate is consistent with the accumulated knowledge: an
    /// external collaborator must have supplied an inconsistent placement.
    NoConsistentWord,
}

/// The lifecycle of a game: still active with a fresh snapshot, or finished.
pub enum GameState {
    Active(ActiveState),
    Done(GameOutcome),
}

/// The mutable heart of every game variant: the pattern, the wrong-guess
/// set, and the optional lives counter.
pub struct GameCore {
    pub guess_state: GuessState,
    pub wrong: WrongGuesses,
    pub lives: Option<u32>,
}

impl GameCore {
    /// A fresh game over a word of `length` positions.
    pub fn new(length: usize, lives: Option<u32>) -> (g: Self)
        ensures
            g.guess_state.0@.len() == length,
            forall|i: int| 0 <= i < length ==> g.guess_state.0@[i] == Letter::Unknown,
            g.wrong.0@ == Seq::<char>::empty(),
            g.lives == lives,
    {
        GameCore { guess_state: GuessState::new(length), wrong: WrongGuesses::new(), lives }
    }

    /// An immutable snapshot of this turn, handed to collaborators and
    /// matching routines.
    pub fn snapshot(&self) -> (s: ActiveState)
        ensures
            s.guess.0@ == self.guess_state.0@,
            s.wrong.0@ == self.wrong.0@,
            s.lives == self.lives,
    {
        ActiveState {
            guess: GuessState(copy_letters(&self.guess_state.0)),
            wrong: WrongGuesses(copy_word(&self.wrong.0)),
            lives: match self.lives {
                Option::Some(l) => Option::Some(l),
                Option::None => Option::None,
            },
        }
    }

    /// Resolve a guess: reveal `c` at the given positions, or — when no
    /// position was revealed — record `c` as wrong and spend a life. A
    /// revealed position never reverts, so the pattern only gains knowledge.
    pub fn apply_guess(&mut self, c: char, indices: &Vec<usize>)
        requires
            forall|t: int|
                0 <= t < indices@.len() ==> indices@[t] < old(self).guess_state.0@.len(),
            indices@.len() == 0 ==> lives_allow_mistake(old(self).lives),
        ensures
            final(self).guess_state.0@.len() == old(self).guess_state.0@.len(),
            indices@.len() > 0 ==> {
                &&& final(self).guess_state.0@ == overlay_at(
                    old(self).guess_state.0@,
                    c,
                    indices@,
                )
                &&& final(self).wrong.0@ == old(self).wrong.0@
                &&& final(self).lives == old(self).lives
            },
            indices@.len() == 0 ==> {
                &&& final(self).guess_state.0@ == old(self).guess_state.0@
                &&& (old(self).wrong.0@.contains(c) ==> final(self).wrong.0@ == old(
                    self,
                ).wrong.0@)
                &&& (!old(self).wrong.0@.contains(c) ==> final(self).wrong.0@ == old(
                    self,
                ).wrong.0@.push(c))
                &&& final(self).wrong.0@.contains(c)
                &&& final(self).lives == lives_after_mistake(old(self).lives)
            },
    {
        if indices.len() > 0 {
            let new_pattern = overlay_exec(&self.guess_state.0, c, indices);
            self.guess_state = GuessState(new_pattern);
        } else {
            self.wrong.insert(c);
            self.lives = match self.lives {
                Option::Some(l) => Option::Some(l - 1),
                Option::None => Option::None,
            };
        }
    }

    /// The terminal rule: lost when a life-limited game has no life left,
    /// won when no position is unknown any more, otherwise still active.
    pub fn game_state(&self, target: Option<&Vec<char>>) -> (s: GameState)
        ensures
            self.lives == Option::Some(0u32) ==> s is Done,
            self.lives == Option::Some(0u32) ==> (s matches GameState::Done(o) ==> o is Lost),
            s matches GameState::Done(GameOutcome::Lost(w)) ==> match target {
                Option::Some(t) => w matches Option::Some(v) && v@ == t@,
                Option::None => w is None,
            },
            (self.lives != Option::Some(0u32) && !self.guess_state.0@.contains(Letter::Unknown))
                ==> s == GameState::Done(GameOutcome::Won),
            (self.lives != Option::Some(0u32) && self.guess_state.0@.contains(Letter::Unknown))
                ==> (s matches GameState::Active(a) && a.guess.0@ == self.guess_state.0@
                && a.wrong.0@ == self.wrong.0@ && a.lives == self.lives),
    {
        let out_of_lives = match self.lives {
            Option::Some(l) => l == 0,
            Option::None => false,
        };
        if out_of_lives {
            let disclosed = match target {
                Option::Some(w) => Option::Some(copy_word(w)),
                Option::None => Option::None,
            };
            GameState::Done(GameOutcome::Lost(disclosed))
        } else if self.guess_state.is_complete() {
            GameState::Done(GameOutcome::Won)
        } else {
            GameState::Active(self.snapshot())
        }
    }
}

/// The positions of `w` that hold the character `c`, in increasing order.
pub open spec fn char_positions(w: Seq<char>, c: char) -> Seq<usize>
    decreases w.len(),
{
    if w.len() == 0 {
        Seq::empty()
    } else if w.last() == c {
        char_positions(w.drop_last(), c).push((w.len() - 1) as usize)
    } else {
        char_positions(w.drop_last(), c)
    }
}

/// The position list of `c` in `w` is strictly increasing, names exactly the
/// positions holding `c`, and is empty exactly when `w` lacks `c`.
pub proof fn lemma_char_positions_props(w: Seq<char>, c: char)
    requires
        w.len() <= usize::MAX,
    ensures
        forall|a: int, b: int|
            0 <= a < b < char_positions(w, c).len() ==> char_positions(w, c)[a] < char_positions(
                w,
                c,
            )[b],
        forall|j: int|
            0 <= j < char_positions(w, c).len() ==> char_positions(w, c)[j] < w.len() && w[
                #[trigger] char_positions(w, c)[j] as int
            ] == c,
        forall|i: int| 0 <= i < w.len() && w[i] == c ==> char_positions(w, c).contains(i as usize),
        (char_positions(w, c).len() == 0 <==> !w.contains(c)),
    decreases w.len(),
{
    if w.len() > 0 {
        lemma_char_positions_props(w.drop_last(), c);
        let u = char_positions(w, c);
        let du = char_positions(w.drop_last(), c);
        assert(forall|i: int| 0 <= i < w.len() - 1 ==> w.drop_last()[i] == w[i]);
        if w.last() == c {
            assert(u == du.push((w.len() - 1) as usize));
            assert(forall|j: int| 0 <= j < du.len() ==> u[j] == du[j]);
        } else {
            assert(u == du);
        }
        assert forall|j: int|
            0 <= j < u.len() implies u[j] < w.len() && w[#[trigger] u[j] as int] == c by {
            if j < du.len() {
                assert(du[j] < w.drop_last().len());
                assert(w.drop_last()[du[j] as int] == c);
            }
        }
        assert forall|a: int, b: int| 0 <= a < b < u.len() implies u[a] < u[b] by {
            if b < du.len() {
                assert(du[a] < du[b]);
            } else if b == du.len() && u.len() == du.len() + 1 {
                assert(du[a] < w.drop_last().len());
            }
        }
        assert forall|i: int| 0 <= i < w.len() && w[i] == c implies u.contains(i as usize) by {
            if i < w.len() - 1 {
                assert(du.contains(i as usize));
                let j = choose|j: int| 0 <= j < du.len() && du[j] == i as usize;
                assert(u[j] == i as usize);
            } else {
                assert(u.last() == i as usize);
            }
        }
        if u.len() > 0 {
            assert(w[u[0] as int] == c);
            assert(w.contains(c));
        }
        if w.contains(c) {
            let i = choose|i: int| 0 <= i < w.len() && w[i] == c;
            assert(u.contains(i as usize));
        }
    } else {
        if w.contains(c) {
            let i = choose|i: int| 0 <= i < w.len() && w[i] == c;
        }
    }
}

/// The game variant with a known secret word: the reveal policy discloses
/// exactly the positions where the word holds the guessed character.
pub struct FullGame {
    pub word: Vec<char>,
    pub core: GameCore,
}

impl FullGame {
    /// A fresh game over the given secret word.
    pub fn new(word: Vec<char>, lives: Option<u32>) -> (g: Self)
        ensures
            g.word@ == word@,
            g.core.guess_state.0@.len() == word@.len(),
            forall|i: int| 0 <= i < word@.len() ==> g.core.guess_state.0@[i] == Letter::Unknown,
            g.core.wrong.0@ == Seq::<char>::empty(),
            g.core.lives == lives,
    {
        let length = word.len();
        FullGame { word, core: GameCore::new(length, lives) }
    }

    /// The known-word reveal policy: exactly the positions where the secret
    /// word holds `guess`.
    pub fn get_guess_indices(&self, guess: char) -> (r: Vec<usize>)
        ensures
            r@ == char_positions(self.word@, guess),
    {
        let mut r: Vec<usize> = Vec::new();
        let mut k: usize = 0;
        proof {
            assert(self.word@.take(0) =~= Seq::<char>::empty());
        }
        while k < self.word.len()
            invariant
                k <= self.word@.len(),
                r@ == char_positions(self.word@.take(k as int), guess),
            decreases self.word@.len() - k,
        {
            proof {
                assert(self.word@.take(k as int + 1).drop_last() =~= self.word@.take(k as int));
                assert(self.word@.take(k as int + 1).last() == self.word@[k as int]);
            }
            if self.word[k] == guess {
                r.push(k);
            }
            k = k + 1;
        }
        proof {
            assert(self.word@.take(self.word@.len() as int) =~= self.word@);
        }
        r
    }
}

/// The game variant without a committed word: an external arbiter supplies
/// the revealed positions each turn, and this game only validates and
/// applies them.
pub struct PartialGame {
    pub length: usize,
    pub core: GameCore,
}

impl PartialGame {
    /// A fresh game over a word of `length` positions.
    pub fn new(length: usize, lives: Option<u32>) -> (g: Self)
        ensures
            g.length == length,
            g.core.guess_state.0@.len() == length,
            forall|i: int| 0 <= i < length ==> g.core.guess_state.0@[i] == Letter::Unknown,
            g.core.wrong.0@ == Seq::<char>::empty(),
            g.core.lives == lives,
    {
        PartialGame { length, core: GameCore::new(length, lives) }
    }

    /// Whether an externally supplied index set can be applied: every index
    /// in range, still unknown, and no index named twice.
    pub fn indices_valid(&self, indices: &Vec<usize>) -> (r: bool)
        ensures
            r == (forall|t: int|
                0 <= t < indices@.len() ==> indices@[t] < self.core.guess_state.0@.len()
                    && self.core.guess_state.0@[#[trigger] indices@[t] as int] == Letter::Unknown
                    && (forall|q: int| 0 <= q < t ==> indices@[q] != indices@[t])),
    {
        let mut t: usize = 0;
        while t < indices.len()
            invariant
                t <= indices@.len(),
                forall|j: int|
                    0 <= j < t ==> indices@[j] < self.core.guess_state.0@.len()
                        && self.core.guess_state.0@[#[trigger] indices@[j] as int]
                        == Letter::Unknown && (forall|q: int|
                        0 <= q < j ==> indices@[q] != indices@[j]),
            decreases indices@.len() - t,
        {
            let i = indices[t];
            if i >= self.core.guess_state.0.len() {
                return false;
            }
            if !self.core.guess_state.0[i].is_unknown() {
                return false;
            }
            let mut q: usize = 0;
            while q < t
                invariant
                    q <= t < indices@.len(),
                    i == indices@[t as int],
                    forall|p: int| 0 <= p < q ==> indices@[p] != i,
                decreases t - q,
            {
                if indices[q] == i {
                    return false;
                }
                q = q + 1;
            }
            t = t + 1;
        }
        true
    }
}

/// Lexicographic order on index lists: decided at the first difference, and
/// a proper prefix comes before its extensions.
pub open spec fn lex_less(a: Seq<usize>, b: Seq<usize>) -> bool
    decreases a.len(),
{
    if b.len() == 0 {
        false
    } else if a.len() == 0 {
        true
    } else if a[0] < b[0] {
        true
    } else if a[0] > b[0] {
        false
    } else {
        lex_less(a.drop_first(), b.drop_first())
    }
}

/// Non-strict lexicographic order.
pub open spec fn lex_leq(a: Seq<usize>, b: Seq<usize>) -> bool {
    a == b || lex_less(a, b)
}

/// Any two index lists are lexicographically comparable.
pub proof fn lemma_lex_total(a: Seq<usize>, b: Seq<usize>)
    ensures
        a == b || lex_less(a, b) || lex_less(b, a),
    decreases a.len(),
{
    if a.len() > 0 && b.len() > 0 && a[0] == b[0] {
        lemma_lex_total(a.drop_first(), b.drop_first());
        if a.drop_first() == b.drop_first() {
            assert(a.drop_first().len() == a.len() - 1);
            assert(b.drop_first().len() == b.len() - 1);
            assert(a.len() == b.len());
            assert forall|i: int| 0 <= i < a.len() implies a[i] == b[i] by {
                if i > 0 {
                    assert(a.drop_first()[i - 1] == a[i]);
                    assert(b.drop_first()[i - 1] == b[i]);
                }
            }
            assert(a =~= b);
        }
    }
}

/// Strict lexicographic order is transitive.
pub proof fn lemma_lex_less_trans(a: Seq<usize>, b: Seq<usize>, c: Seq<usize>)
    requires
        lex_less(a, b),
        lex_less(b, c),
    ensures
        lex_less(a, c),
    decreases a.len(),
{
    if a.len() > 0 {
        if a[0] == b[0] && b[0] == c[0] {
            lemma_lex_less_trans(a.drop_first(), b.drop_first(), c.drop_first());
        }
    }
}

/// Decide the lexicographic order of two index lists.
pub fn lex_less_exec(a: &Vec<usize>, b: &Vec<usize>) -> (r: bool)
    ensures
        r == lex_less(a@, b@),
{
    let mut k: usize = 0;
    proof {
        assert(a@.skip(0) =~= a@);
        assert(b@.skip(0) =~= b@);
    }
    while k < a.len() && k < b.len()
        invariant
            k <= a@.len(),
            k <= b@.len(),
            lex_less(a@, b@) == lex_less(a@.skip(k as int), b@.skip(k as int)),
        decreases a@.len() - k,
    {
        if a[k] < b[k] {
            proof {
                assert(a@.skip(k as int)[0] == a@[k as int]);
                assert(b@.skip(k as int)[0] == b@[k as int]);
            }
            return true;
        }
        if a[k] > b[k] {
            return false;
        }
        proof {
            assert(a@.skip(k as int).drop_first() =~= a@.skip(k as int + 1));
            assert(b@.skip(k as int).drop_first() =~= b@.skip(k as int + 1));
            assert(a@.skip(k as int)[0] == a@[k as int]);
            assert(b@.skip(k as int)[0] == b@[k as int]);
        }
        k = k + 1;
    }
    k == a.len() && k < b.len()
}

/// The empty mask selects no position.
pub proof fn lemma_mask_indices_zero(u_list: Seq<usize>)
    ensures
        crate::guesser::mask_indices(u_list, 0) == Seq::<usize>::empty(),
    decreases u_list.len(),
{
    vstd::arithmetic::power2::lemma_pow2_pos((u_list.len() - 1) as nat);
    if u_list.len() > 0 {
        lemma_mask_indices_zero(u_list.drop_last());
        assert(0int / (vstd::arithmetic::power2::pow2((u_list.len() - 1) as nat) as int) == 0)
            by {
            vstd::arithmetic::div_mod::lemma_div_of0(
                vstd::arithmetic::power2::pow2((u_list.len() - 1) as nat) as int,
            );
        }
        assert(!crate::guesser::mask_bit(0, (u_list.len() - 1) as nat));
    }
}

/// The game variant that plays the adversary: it never commits to a word,
/// and on each guess it discloses the outcome that keeps the most candidates
/// alive — ties broken by preferring "absent", then the lexicographically
/// smallest index set.
pub struct AntagonisticGame {
    pub word_space: crate::words::WordSpace,
    pub core: GameCore,
}

impl AntagonisticGame {
    /// A fresh adversarial game over a word of `length` positions.
    pub fn new(length: usize, word_space: crate::words::WordSpace, lives: Option<u32>) -> (g:
        Self)
        ensures
            g.word_space.words.deep_view() == word_space.words.deep_view(),
            g.core.guess_state.0@.len() == length,
            forall|i: int| 0 <= i < length ==> g.core.guess_state.0@[i] == Letter::Unknown,
            g.core.wrong.0@ == Seq::<char>::empty(),
            g.core.lives == lives,
    {
        AntagonisticGame { word_space, core: GameCore::new(length, lives) }
    }

    /// The adversarial reveal policy: among the "absent" outcome and every
    /// outcome that keeps at least one candidate, return one keeping the
    /// most; on ties "absent" wins, then the lexicographically smallest
    /// index set.
    pub fn get_guess_indices(&self, guess: char) -> (r: Vec<usize>)
        requires
            self.core.guess_state.0@.len() < 32,
        ensures
            ({
                let words = self.word_space.words.deep_view();
                let pattern = self.core.guess_state.0@;
                let wrong = self.core.wrong.0@;
                let u_list = unknowns_of(pattern);
                let total = vstd::arithmetic::power2::pow2(u_list.len());
                exists|m: nat|
                    {
                        &&& m < total
                        &&& r@ == #[trigger] crate::guesser::mask_indices(u_list, m)
                        &&& (m == 0 || crate::guesser::outcome_count(
                            words,
                            pattern,
                            wrong,
                            guess,
                            u_list,
                            m,
                        ) >= 1)
                        &&& forall|m2: nat|
                            m2 < total && (m2 == 0 || crate::guesser::outcome_count(
                                words,
                                pattern,
                                wrong,
                                guess,
                                u_list,
                                m2,
                            ) >= 1) ==> crate::guesser::outcome_count(
                                words,
                                pattern,
                                wrong,
                                guess,
                                u_list,
                                m2,
                            ) <= #[trigger] crate::guesser::outcome_count(
                                words,
                                pattern,
                                wrong,
                                guess,
                                u_list,
                                m,
                            )
                        &&& (m != 0 ==> crate::guesser::outcome_count(
                            words,
                            pattern,
                            wrong,
                            guess,
                            u_list,
                            0,
                        ) < crate::guesser::outcome_count(
                            words,
                            pattern,
                            wrong,
                            guess,
                            u_list,
                            m,
                        ))
                        &&& forall|m2: nat|
                            0 < m2 < total && crate::guesser::outcome_count(
                                words,
                                pattern,
                                wrong,
                                guess,
                                u_list,
                                m2,
                            ) >= 1 && #[trigger] crate::guesser::outcome_count(
                                words,
                                pattern,
                                wrong,
                                guess,
                                u_list,
                                m2,
                            ) == crate::guesser::outcome_count(
                                words,
                                pattern,
                                wrong,
                                guess,
                                u_list,
                                m,
                            ) ==> lex_leq(
                                crate::guesser::mask_indices(u_list, m),
                                crate::guesser::mask_indices(u_list, m2),
                            )
                    }
            }),
    {
        let ghost words = self.word_space.words.deep_view();
        let ghost pattern = self.core.guess_state.0@;
        let ghost wrong = self.core.wrong.0@;
        let state = self.core.snapshot();
        let u_list = self.core.guess_state.unknown_indices();
        proof {
            lemma_unknowns_of_props(self.core.guess_state.0@);
        }
        let bound = crate::guesser::pow2_exec(u_list.len() as u64);
        let mut best_indices: Vec<usize> = Vec::new();
        proof {
            lemma_mask_indices_zero(u_list@);
        }
        let mut best_count: usize = crate::guesser::outcome_count_exec(
            &self.word_space,
            &state,
            guess,
            &u_list,
            0,
        );
        let mut best_is_absent: bool = true;
        let ghost mut best_mask: nat = 0;
        proof {
            vstd::arithmetic::power2::lemma_pow2_pos(u_list@.len() as nat);
        }
        let mut mask: u64 = 1;
        while mask < bound
            invariant
                state.guess.0@ == pattern,
                state.wrong.0@ == wrong,
                self.word_space.words.deep_view() == words,
                u_list@ == unknowns_of(pattern),
                u_list@.len() < 32,
                forall|t: int| 0 <= t < u_list@.len() ==> u_list@[t] < pattern.len(),
                bound as nat == vstd::arithmetic::power2::pow2(u_list@.len() as nat),
                1 <= mask <= bound,
                best_mask < mask as nat,
                best_is_absent == (best_mask == 0),
                best_indices@ == crate::guesser::mask_indices(u_list@, best_mask),
                best_count as nat == crate::guesser::outcome_count(
                    words,
                    pattern,
                    wrong,
                    guess,
                    u_list@,
                    best_mask,
                ),
                best_mask == 0 || best_count >= 1,
                forall|m2: nat|
                    m2 < mask as nat && (m2 == 0 || crate::guesser::outcome_count(
                        words,
                        pattern,
                        wrong,
                        guess,
                        u_list@,
                        m2,
                    ) >= 1) ==> #[trigger] crate::guesser::outcome_count(
                        words,
                        pattern,
                        wrong,
                        guess,
                        u_list@,
                        m2,
                    ) <= best_count as nat,
                best_mask != 0 ==> crate::guesser::outcome_count(
                    words,
                    pattern,
                    wrong,
                    guess,
                    u_list@,
                    0,
                ) < best_count as nat,
                forall|m2: nat|
                    0 < m2 < mask as nat && crate::guesser::outcome_count(
                        words,
                        pattern,
                        wrong,
                        guess,
                        u_list@,
                        m2,
                    ) >= 1 && #[trigger] crate::guesser::outcome_count(
                        words,
                        pattern,
                        wrong,
                        guess,
                        u_list@,
                        m2,
                    ) == best_count as nat ==> lex_leq(
                        crate::guesser::mask_indices(u_list@, best_mask),
                        crate::guesser::mask_indices(u_list@, m2),
                    ),
            decreases bound - mask,
        {
            let cnt = crate::guesser::outcome_count_exec(
                &self.word_space,
                &state,
                guess,
                &u_list,
                mask,
            );
            if cnt >= 1 {
                if cnt > best_count {
                    best_indices = crate::guesser::mask_to_indices(&u_list, mask);
                    best_count = cnt;
                    best_is_absent = false;
                    proof {
                        best_mask = mask as nat;
                    }
                } else if cnt == best_count && best_is_absent {
                    proof {
                        lemma_mask_indices_zero(u_list@);
                        let s2 = crate::guesser::mask_indices(u_list@, mask as nat);
                        if s2.len() == 0 {
                            assert(crate::guesser::mask_indices(u_list@, best_mask) =~= s2);
                        } else {
                            assert(lex_less(crate::guesser::mask_indices(u_list@, best_mask), s2));
                        }
                    }
                } else if cnt == best_count && !best_is_absent {
                    let idxs = crate::guesser::mask_to_indices(&u_list, mask);
                    let ghost old_best = best_indices@;
                    if lex_less_exec(&idxs, &best_indices) {
                        best_indices = idxs;
                        proof {
                            best_mask = mask as nat;
                            assert forall|m2: nat|
                                0 < m2 < mask as nat + 1 && crate::guesser::outcome_count(
                                    words,
                                    pattern,
                                    wrong,
                                    guess,
                                    u_list@,
                                    m2,
                                ) >= 1 && #[trigger] crate::guesser::outcome_count(
                                    words,
                                    pattern,
                                    wrong,
                                    guess,
                                    u_list@,
                                    m2,
                                ) == best_count as nat implies lex_leq(
                                crate::guesser::mask_indices(u_list@, best_mask),
                                crate::guesser::mask_indices(u_list@, m2),
                            ) by {
                                if m2 < mask as nat {
                                    let s2 = crate::guesser::mask_indices(u_list@, m2);
                                    if old_best == s2 {
                                    } else {
                                        lemma_lex_less_trans(
                                            crate::guesser::mask_indices(u_list@, best_mask),
                                            old_best,
                                            s2,
                                        );
                                    }
                                }
                            }
                        }
                    } else {
                        proof {
                            lemma_lex_total(
                                crate::guesser::mask_indices(u_list@, best_mask),
                                crate::guesser::mask_indices(u_list@, mask as nat),
                            );
                        }
                    }
                }
            }
            mask = mask + 1;
        }
        proof {
            assert(best_mask < vstd::arithmetic::power2::pow2(u_list@.len() as nat));
        }
        best_indices
    }
}

/// A word containing any confirmed-absent character can never match,
/// whatever the pattern shows: exclusion by the wrong set is total.
pub proof fn lemma_wrong_guess_excludes(word: Seq<char>, pattern: Seq<Letter>, wrong: Seq<char>)
    requires
        exists|i: int| 0 <= i < word.len() && wrong.contains(#[trigger] word[i]),
    ensures
        !spec_matches(word, pattern, wrong),
{
}

} // verus!
