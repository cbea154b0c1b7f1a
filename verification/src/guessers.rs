//! Guess providers: anything that can pick the next character for a turn.
//! Besides the entropy engine, the library offers a simple frequency
//! heuristic; an interactive player is a provider implemented by the
//! surrounding program.

use vstd::prelude::*;

use crate::game::{ActiveState, Letter};
use crate::words::{
    consistent_words, dict_has_char, lemma_consistent_words_membership, unique_chars, WordSpace,
    Words,
};

verus! {

/// A guess-provider capability: one operation, producing the next character
/// to guess for a turn snapshot, or nothing when no character remains.
pub trait Guesser {
    fn guess(&mut self, state: &ActiveState) -> Option<char>;
}

/// How many words of the list contain the character `c`.
pub open spec fn words_containing(words: Seq<Seq<char>>, c: char) -> nat
    decreases words.len(),
{
    if words.len() == 0 {
        0
    } else {
        words_containing(words.drop_last(), c) + if words.last().contains(c) {
            1nat
        } else {
            0nat
        }
    }
}

/// Whether a word holds the character `c`.
pub fn word_has(w: &Vec<char>, c: char) -> (r: bool)
    ensures
        r == w@.contains(c),
{
    let mut k: usize = 0;
    while k < w.len()
        invariant
            k <= w@.len(),
            forall|i: int| 0 <= i < k ==> w@[i] != c,
        decreases w@.len() - k,
    {
        if w[k] == c {
            assert(w@.contains(c));
            return true;
        }
        k = k + 1;
    }
    false
}

/// A simple selector: after filtering the candidate space, guess the
/// character occurring in the most remaining candidates, ties going to the
/// smallest code point.
pub struct FrequencyGuesser {
    pub word_space: WordSpace,
}

impl FrequencyGuesser {
    /// A frequency selector over the whole dictionary.
    pub fn new(words: Words) -> (g: Self)
        ensures
            g.word_space.words.deep_view() == words.words.deep_view(),
    {
        FrequencyGuesser { word_space: WordSpace::new(&words) }
    }

    /// How many held candidates contain `c`.
    fn count_words_with(&self, c: char) -> (n: usize)
        ensures
            n as nat == words_containing(self.word_space.words.deep_view(), c),
    {
        let ghost dv = self.word_space.words.deep_view();
        let mut n: usize = 0;
        let mut k: usize = 0;
        proof {
            assert(dv.take(0) =~= Seq::<Seq<char>>::empty());
        }
        while k < self.word_space.words.len()
            invariant
                k <= self.word_space.words@.len(),
                n <= k,
                dv == self.word_space.words.deep_view(),
                n as nat == words_containing(dv.take(k as int), c),
            decreases self.word_space.words@.len() - k,
        {
            proof {
                crate::words::lemma_word_deep_view(self.word_space.words@[k as int]);
                assert(dv.take(k as int + 1).drop_last() =~= dv.take(k as int));
                assert(dv.take(k as int + 1).last() == dv[k as int]);
            }
            if word_has(&self.word_space.words[k], c) {
                n = n + 1;
            }
            k = k + 1;
        }
        proof {
            assert(dv.take(dv.len() as int) =~= dv);
        }
        n
    }

    /// One turn of the heuristic: filter the candidate space with the fresh
    /// snapshot, then pick the character occurring in the most remaining
    /// candidates among those not yet shown in the pattern; ties go to the
    /// smallest code point. Nothing comes back only when no candidate offers
    /// an unrevealed character.
    pub fn suggest(&mut self, state: &ActiveState) -> (r: Option<char>)
        ensures
            final(self).word_space.words.deep_view() == consistent_words(
                old(self).word_space.words.deep_view(),
                state.guess.0@,
                state.wrong.0@,
            ),
            ({
                let filtered = consistent_words(
                    old(self).word_space.words.deep_view(),
                    state.guess.0@,
                    state.wrong.0@,
                );
                &&& ((r is Some) <==> exists|d: char|
                    #[trigger] dict_has_char(filtered, d) && !state.guess.0@.contains(
                        Letter::Character(d),
                    ))
                &&& (r matches Option::Some(c) ==> {
                    &&& dict_has_char(filtered, c)
                    &&& !state.guess.0@.contains(Letter::Character(c))
                    &&& !state.wrong.0@.contains(c)
                    &&& forall|d: char|
                        #[trigger] dict_has_char(filtered, d) && !state.guess.0@.contains(
                            Letter::Character(d),
                        ) ==> words_containing(filtered, d) <= words_containing(filtered, c)
                    &&& forall|d: char|
                        #[trigger] dict_has_char(filtered, d) && !state.guess.0@.contains(
                            Letter::Character(d),
                        ) && words_containing(filtered, d) == words_containing(filtered, c)
                            ==> c as int <= d as int
                })
            }),
    {
        self.word_space.filter_with_guess(state);
        let ghost filtered = self.word_space.words.deep_view();
        let chars = unique_chars(&self.word_space.words);
        let mut found: bool = false;
        let mut best_char: char = '\0';
        let mut best_count: usize = 0;
        let ghost mut best_j: int = 0;
        let mut k: usize = 0;
        while k < chars.len()
            invariant
                k <= chars@.len(),
                filtered == self.word_space.words.deep_view(),
                crate::words::sorted_strict(chars@),
                forall|d: char| chars@.contains(d) <==> dict_has_char(filtered, d),
                !found ==> forall|j: int|
                    0 <= j < k ==> state.guess.0@.contains(
                        Letter::Character(#[trigger] chars@[j]),
                    ),
                found ==> {
                    &&& 0 <= best_j < k
                    &&& chars@[best_j] == best_char
                    &&& !state.guess.0@.contains(Letter::Character(best_char))
                    &&& best_count as nat == words_containing(filtered, best_char)
                    &&& forall|j: int|
                        0 <= j < k && !state.guess.0@.contains(
                            Letter::Character(#[trigger] chars@[j]),
                        ) ==> words_containing(filtered, chars@[j]) <= best_count as nat
                    &&& forall|j: int|
                        0 <= j < k && !state.guess.0@.contains(
                            Letter::Character(#[trigger] chars@[j]),
                        ) && words_containing(filtered, chars@[j]) == best_count as nat
                            ==> best_char as int <= chars@[j] as int
                },
            decreases chars@.len() - k,
        {
            let ch = chars[k];
            if !state.guess.has_character(ch) {
                let cnt = self.count_words_with(ch);
                if !found || cnt > best_count {
                    found = true;
                    best_char = ch;
                    best_count = cnt;
                    proof {
                        best_j = k as int;
                    }
                }
            }
            k = k + 1;
        }
        if found {
            proof {
                assert(chars@.contains(best_char));
                assert(dict_has_char(filtered, best_char));
                // a character of a surviving candidate is never a wrong guess
                let (wi, wj): (int, int) = choose|wi: int, wj: int|
                    0 <= wi < filtered.len() && 0 <= wj < filtered[wi].len() && filtered[wi][wj]
                        == best_char;
                lemma_consistent_words_membership(
                    old(self).word_space.words.deep_view(),
                    state.guess.0@,
                    state.wrong.0@,
                );
                assert(crate::game::spec_matches(filtered[wi], state.guess.0@, state.wrong.0@));
                assert(!state.wrong.0@.contains(filtered[wi][wj]));
                assert forall|d: char|
                    #[trigger] dict_has_char(filtered, d) && !state.guess.0@.contains(
                        Letter::Character(d),
                    ) implies words_containing(filtered, d) <= best_count as nat by {
                    assert(chars@.contains(d));
                    let j = choose|j: int| 0 <= j < chars@.len() && chars@[j] == d;
                }
                assert forall|d: char|
                    #[trigger] dict_has_char(filtered, d) && !state.guess.0@.contains(
                        Letter::Character(d),
                    ) && words_containing(filtered, d) == words_containing(filtered, best_char)
                    implies best_char as int <= d as int by {
                    let j = choose|j: int| 0 <= j < chars@.len() && chars@[j] == d;
                }
            }
            Some(best_char)
        } else {
            proof {
                if exists|d: char|
                    #[trigger] dict_has_char(filtered, d) && !state.guess.0@.contains(
                        Letter::Character(d),
                    ) {
                    let d = choose|d: char|
                        #[trigger] dict_has_char(filtered, d) && !state.guess.0@.contains(
                            Letter::Character(d),
                        );
                    assert(chars@.contains(d));
                    let j = choose|j: int| 0 <= j < chars@.len() && chars@[j] == d;
                    assert(false);
                }
            }
            None
        }
    }
}

impl Guesser for FrequencyGuesser {
    /// The frequency heuristic as a guess provider.
    fn guess(&mut self, state: &ActiveState) -> Option<char> {
        self.suggest(state)
    }
}

} // verus!
