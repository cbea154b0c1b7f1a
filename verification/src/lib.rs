//! An engine for the adversarial pattern-guessing word game (hangman style):
//! candidate-space tracking, entropy-driven guess selection, and the game
//! state machine with its reveal policies. A configured game can be played to
//! its end fully automatically, with the proof that a game against a known
//! word is always won within one turn per distinct dictionary character.

use vstd::prelude::*;

pub mod game;
pub mod guesser;
pub mod guessers;
pub mod words;

use crate::game::{
    lemma_char_positions_props, spec_matches, unknowns_of, AntagonisticGame, FullGame, GameState,
    Letter, PartialGame,
};
use crate::guesser::{
    lemma_viable_chars_membership, lemma_viable_chars_strict, viable_chars, Guess, Guesser,
};
use crate::words::{
    consistent_words, dict_has_char, lemma_consistent_words_absorb,
    lemma_consistent_words_membership, lemma_filter_with_guess_shrinks,
    lemma_overlay_strengthens, lemma_sorted_no_duplicates, lemma_wrong_push_strengthens,
    sorted_strict, unique_chars, Words, WordSpace,
};

verus! {

/// The set of characters occurring anywhere in a dictionary: the alphabet
/// the guess pool is drawn from.
pub open spec fn char_set(words: Seq<Seq<char>>) -> Set<char> {
    Set::new(|c: char| dict_has_char(words, c))
}

/// The candidates a fresh game of the given length starts from: the
/// dictionary words consistent with the all-unknown initial snapshot —
/// exactly those of that length.
pub open spec fn initial_candidates(dict: Seq<Seq<char>>, length: nat) -> Seq<Seq<char>> {
    consistent_words(dict, Seq::new(length, |i: int| Letter::Unknown), Seq::<char>::empty())
}

/// How an automated game ended.
pub enum PlayOutcome {
    /// The pattern was completed, or the last candidate was taken as the word.
    Won,
    /// The candidate space became empty: the external reveals were
    /// inconsistent with every dictionary word.
    NoConsistentWord,
    /// No further move was possible: the pool of untried characters ran dry,
    /// or the external reveal script ended or supplied an unusable entry.
    Halted,
}

/// Play a game with a known secret word to its end, guessing the engine's
/// top suggestion every turn. The game is always won, within one turn per
/// distinct dictionary character.
pub fn play_full_auto(word: Vec<char>, words: &Words) -> (r: (PlayOutcome, usize))
    requires
        0 < word@.len() < 32,
        words.words.deep_view().contains(word@),
    ensures
        r.0 is Won,
        char_set(words.words.deep_view()).finite(),
        r.1 as nat <= char_set(words.words.deep_view()).len(),
{
    let ghost word0 = word@;
    let ghost dict = words.words.deep_view();
    let ghost alphabet = char_set(dict);
    let pool = unique_chars(&words.words);
    let pool_len = pool.len();
    proof {
        assert(pool_len == pool@.len());
        lemma_sorted_no_duplicates(pool@);
        pool@.unique_seq_to_set();
        vstd::seq_lib::seq_to_set_is_finite::<char>(pool@);
        assert(pool@.to_set() =~= alphabet);
        assert(alphabet.len() <= usize::MAX);
    }
    let mut game = FullGame::new(word, None);
    let mut guesser = Guesser::new(WordSpace::new(words), pool);
    let mut turns: usize = 0;
    proof {
        assert(spec_matches(word0, game.core.guess_state.0@, game.core.wrong.0@));
        crate::guesser::lemma_viable_chars_len(
            guesser.possible_guesses@,
            game.core.guess_state.0@,
            game.core.wrong.0@,
        );
    }
    loop
        invariant
            game.word@ == word0,
            0 < word0.len() < 32,
            game.core.guess_state.0@.len() == word0.len(),
            game.core.lives == Option::<u32>::None,
            spec_matches(word0, game.core.guess_state.0@, game.core.wrong.0@),
            forall|j: int, p: int|
                0 <= j < word0.len() && 0 <= p < word0.len() && game.core.guess_state.0@[j]
                    != Letter::Unknown && word0[p] == word0[j] ==> game.core.guess_state.0@[p]
                    != Letter::Unknown,
            guesser.word_space.words.deep_view().contains(word0),
            sorted_strict(guesser.possible_guesses@),
            forall|c: char|
                alphabet.contains(c) && !game.core.wrong.0@.contains(c)
                    && !game.core.guess_state.0@.contains(Letter::Character(c))
                    ==> guesser.possible_guesses@.contains(c),
            turns as nat + viable_chars(
                guesser.possible_guesses@,
                game.core.guess_state.0@,
                game.core.wrong.0@,
            ).len() <= alphabet.len(),
            alphabet == char_set(dict),
            alphabet.finite(),
            alphabet.len() <= usize::MAX,
            dict == words.words.deep_view(),
            dict.contains(word0),
        decreases alphabet.len() - turns,
    {
        let st = game.core.game_state(Some(&game.word));
        match st {
            GameState::Done(_) => {
                return (PlayOutcome::Won, turns);
            },
            GameState::Active(state) => {
                let ghost pattern = game.core.guess_state.0@;
                let ghost wrong = game.core.wrong.0@;
                let ghost pool0 = guesser.possible_guesses@;
                let ghost pre_space = guesser.word_space.words.deep_view();
                proof {
                    // the target's character at any unknown position is a
                    // viable guess, so the pool is never empty while active
                    assert(pattern.contains(Letter::Unknown));
                    let i = choose|i: int|
                        0 <= i < pattern.len() && pattern[i] == Letter::Unknown;
                    let c0 = word0[i];
                    let wi = choose|wi: int| 0 <= wi < dict.len() && dict[wi] == word0;
                    assert(dict_has_char(dict, c0));
                    assert(alphabet.contains(c0));
                    assert(!wrong.contains(c0));
                    if pattern.contains(Letter::Character(c0)) {
                        let j = choose|j: int|
                            0 <= j < pattern.len() && pattern[j] == Letter::Character(c0);
                        assert(pattern[j] == Letter::Character(word0[j]));
                        assert(pattern[i] != Letter::Unknown);
                        assert(false);
                    }
                    assert(pool0.contains(c0));
                    lemma_viable_chars_membership(pool0, pattern, wrong);
                    assert(viable_chars(pool0, pattern, wrong).contains(c0));
                    let vt = choose|vt: int|
                        0 <= vt < viable_chars(pool0, pattern, wrong).len() && viable_chars(
                            pool0,
                            pattern,
                            wrong,
                        )[vt] == c0;
                    assert(viable_chars(pool0, pattern, wrong).len() > 0);
                }
                let g = guesser.guess(&state);
                proof {
                    lemma_consistent_words_membership(pre_space, pattern, wrong);
                    assert(consistent_words(pre_space, pattern, wrong).contains(word0));
                    let st0 = choose|st0: int|
                        0 <= st0 < consistent_words(pre_space, pattern, wrong).len()
                            && consistent_words(pre_space, pattern, wrong)[st0] == word0;
                    assert(consistent_words(pre_space, pattern, wrong).len() >= 1);
                }
                match g {
                    Guess::Unknown => {
                        proof {
                            assert(false);
                        }
                        return (PlayOutcome::Won, turns);
                    },
                    Guess::Word(_) => {
                        return (PlayOutcome::Won, turns);
                    },
                    Guess::Char { char: c, info: _ } => {
                        let ghost pool1 = guesser.possible_guesses@;
                        let indices = game.get_guess_indices(c);
                        proof {
                            lemma_char_positions_props(word0, c);
                        }
                        game.core.apply_guess(c, &indices);
                        proof {
                            assert(viable_chars(pool0, pattern, wrong).len() >= 1);
                            assert((turns as nat) < alphabet.len());
                        }
                        turns = turns + 1;
                        proof {
                            let new_pattern = game.core.guess_state.0@;
                            let new_wrong = game.core.wrong.0@;
                            assert(pool1 == viable_chars(pool0, pattern, wrong));
                            if indices@.len() == 0 {
                                // `c` occurs nowhere in the word: it joined the wrong set
                                assert(!word0.contains(c));
                                assert(new_pattern == pattern);
                                assert forall|p: int|
                                    0 <= p < word0.len() implies !new_wrong.contains(
                                    #[trigger] word0[p],
                                ) by {
                                    if new_wrong.contains(word0[p]) {
                                        assert(word0[p] == c || wrong.contains(word0[p]));
                                        if word0[p] == c {
                                            assert(word0.contains(c));
                                        }
                                    }
                                }
                                assert(spec_matches(word0, new_pattern, new_wrong));
                                lemma_viable_chars_strict(pool1, new_pattern, new_wrong, c);
                            } else {
                                // `c` was revealed at every position where the word holds it
                                assert(new_pattern == crate::game::overlay_at(
                                    pattern,
                                    c,
                                    indices@,
                                ));
                                assert(new_wrong == wrong);
                                assert forall|p: int|
                                    0 <= p < word0.len() implies (#[trigger] new_pattern[p]
                                    == Letter::Unknown || new_pattern[p] == Letter::Character(
                                    word0[p],
                                )) by {
                                    if crate::game::idx_in(indices@, p) {
                                        let j = choose|j: int|
                                            0 <= j < indices@.len() && (#[trigger] indices@[j])
                                                as int == p;
                                        assert(word0[p] == c);
                                    }
                                }
                                assert(spec_matches(word0, new_pattern, new_wrong));
                                // reveal completeness is preserved
                                assert forall|j: int, p: int|
                                    0 <= j < word0.len() && 0 <= p < word0.len() && new_pattern[j]
                                        != Letter::Unknown && word0[p] == word0[j]
                                    implies new_pattern[p] != Letter::Unknown by {
                                    if pattern[j] != Letter::Unknown {
                                        assert(pattern[p] != Letter::Unknown);
                                        if !crate::game::idx_in(indices@, p) {
                                            assert(new_pattern[p] == pattern[p]);
                                        }
                                    } else {
                                        assert(crate::game::idx_in(indices@, j));
                                        let jj = choose|jj: int|
                                            0 <= jj < indices@.len() && (#[trigger] indices@[jj])
                                                as int == j;
                                        assert(word0[j] == c);
                                        assert(word0[p] == c);
                                        assert(crate::game::char_positions(word0, c).contains(
                                            p as usize,
                                        ));
                                        let pj = choose|pj: int|
                                            0 <= pj < indices@.len() && indices@[pj] == p as usize;
                                        assert(crate::game::idx_in(indices@, p));
                                    }
                                }
                                // previously revealed characters persist through the overlay
                                assert forall|c2: char|
                                    pattern.contains(Letter::Character(c2)) implies new_pattern
                                    .contains(Letter::Character(c2)) by {
                                    let j = choose|j: int|
                                        0 <= j < pattern.len() && pattern[j] == Letter::Character(
                                            c2,
                                        );
                                    if crate::game::idx_in(indices@, j) {
                                        let jj = choose|jj: int|
                                            0 <= jj < indices@.len() && (#[trigger] indices@[jj])
                                                as int == j;
                                        assert(word0[j] == c);
                                        assert(pattern[j] == Letter::Character(word0[j]));
                                        assert(new_pattern[j] == Letter::Character(c));
                                    } else {
                                        assert(new_pattern[j] == Letter::Character(c2));
                                    }
                                }
                                // the guessed character now shows in the pattern
                                let p0 = indices@[0];
                                assert(crate::game::idx_in(indices@, p0 as int));
                                assert(new_pattern[p0 as int] == Letter::Character(c));
                                assert(new_pattern.contains(Letter::Character(c)));
                                lemma_viable_chars_strict(pool1, new_pattern, new_wrong, c);
                            }
                            // the target survives the filtering inside the selector
                            assert(guesser.word_space.words.deep_view().contains(word0));
                            // pool completeness is preserved
                            assert forall|c2: char|
                                alphabet.contains(c2) && !new_wrong.contains(c2) && !new_pattern
                                    .contains(Letter::Character(c2)) implies pool1.contains(
                                c2,
                            ) by {
                                if wrong.contains(c2) {
                                    let j = choose|j: int|
                                        0 <= j < wrong.len() && wrong[j] == c2;
                                    assert(new_wrong[j] == c2);
                                    assert(new_wrong.contains(c2));
                                }
                                assert(!wrong.contains(c2));
                                assert(!pattern.contains(Letter::Character(c2)));
                                assert(pool0.contains(c2));
                                lemma_viable_chars_membership(pool0, pattern, wrong);
                            }
                        }
                    },
                }
            },
        }
    }
}

/// One common piece of bookkeeping for the automated loops: the pool and the
/// alphabet it came from.
proof fn alphabet_accounting(pool: Seq<char>, dict: Seq<Seq<char>>)
    requires
        sorted_strict(pool),
        forall|c: char| pool.contains(c) <==> dict_has_char(dict, c),
    ensures
        char_set(dict).finite(),
        char_set(dict).len() == pool.len(),
{
    lemma_sorted_no_duplicates(pool);
    pool.unique_seq_to_set();
    vstd::seq_lib::seq_to_set_is_finite::<char>(pool);
    assert(pool.to_set() =~= char_set(dict));
}

/// One reveal step narrows the candidate set: a space already filtered to
/// the current snapshot filters under the extended snapshot exactly like the
/// whole dictionary, and the result is no larger than before.
proof fn lemma_turn_narrows(
    dict: Seq<Seq<char>>,
    space: Seq<Seq<char>>,
    pattern: Seq<Letter>,
    wrong: Seq<char>,
    new_pattern: Seq<Letter>,
    new_wrong: Seq<char>,
    c: char,
    idxs: Seq<usize>,
)
    requires
        space == consistent_words(dict, pattern, wrong),
        idxs.len() > 0 ==> new_pattern == crate::game::overlay_at(pattern, c, idxs) && new_wrong
            == wrong && (forall|t: int|
            0 <= t < idxs.len() ==> idxs[t] < pattern.len() && pattern[#[trigger] idxs[t] as int]
                == Letter::Unknown),
        idxs.len() == 0 ==> new_pattern == pattern && new_wrong == wrong.push(c),
    ensures
        consistent_words(space, new_pattern, new_wrong) == consistent_words(
            dict,
            new_pattern,
            new_wrong,
        ),
        consistent_words(dict, new_pattern, new_wrong).len() <= consistent_words(
            dict,
            pattern,
            wrong,
        ).len(),
{
    if idxs.len() > 0 {
        lemma_overlay_strengthens(pattern, c, idxs, wrong);
    } else {
        lemma_wrong_push_strengthens(pattern, wrong, c);
    }
    lemma_consistent_words_absorb(dict, pattern, wrong, new_pattern, new_wrong);
    lemma_filter_with_guess_shrinks(
        consistent_words(dict, pattern, wrong),
        new_pattern,
        new_wrong,
    );
}

/// Play the adversarial game to its end, guessing the engine's top
/// suggestion every turn while the adversary discloses as little as it can.
/// The loop always terminates within one turn per distinct dictionary
/// character. A dictionary with no word of the configured length is reported
/// as having no consistent word; otherwise the adversary always keeps a
/// candidate alive, so no other run ends that way, and a dictionary with
/// exactly one word of that length is won at once.
pub fn play_antagonistic_auto(length: usize, words: &Words) -> (r: (PlayOutcome, usize))
    requires
        0 < length < 32,
    ensures
        char_set(words.words.deep_view()).finite(),
        r.1 as nat <= char_set(words.words.deep_view()).len(),
        initial_candidates(words.words.deep_view(), length as nat).len() == 0 ==> r.0
            is NoConsistentWord,
        initial_candidates(words.words.deep_view(), length as nat).len() >= 1 ==> !(r.0
            is NoConsistentWord),
        initial_candidates(words.words.deep_view(), length as nat).len() == 1 ==> r.0 is Won,
{
    let ghost dict = words.words.deep_view();
    let ghost alphabet = char_set(dict);
    let ghost init_pattern = Seq::new(length as nat, |i: int| Letter::Unknown);
    let ghost n0 = initial_candidates(dict, length as nat).len();
    let pool = unique_chars(&words.words);
    let pool_len = pool.len();
    proof {
        assert(pool_len == pool@.len());
        alphabet_accounting(pool@, dict);
    }
    let mut game = AntagonisticGame::new(length, WordSpace::new(words), None);
    let mut guesser = Guesser::new(WordSpace::new(words), pool);
    let mut turns: usize = 0;
    proof {
        crate::guesser::lemma_viable_chars_len(
            guesser.possible_guesses@,
            game.core.guess_state.0@,
            game.core.wrong.0@,
        );
        assert(game.core.guess_state.0@ =~= init_pattern);
        assert(game.core.wrong.0@ =~= Seq::<char>::empty());
        assert(game.core.guess_state.0@[0] == Letter::Unknown);
        assert(game.core.guess_state.0@.contains(Letter::Unknown));
    }
    loop
        invariant
            game.core.guess_state.0@.len() == length,
            0 < length < 32,
            game.core.lives == Option::<u32>::None,
            sorted_strict(guesser.possible_guesses@),
            turns as nat + viable_chars(
                guesser.possible_guesses@,
                game.core.guess_state.0@,
                game.core.wrong.0@,
            ).len() <= alphabet.len(),
            alphabet == char_set(dict),
            alphabet.finite(),
            alphabet.len() <= usize::MAX,
            dict == words.words.deep_view(),
            game.word_space.words.deep_view() == dict,
            consistent_words(
                guesser.word_space.words.deep_view(),
                game.core.guess_state.0@,
                game.core.wrong.0@,
            ) == consistent_words(dict, game.core.guess_state.0@, game.core.wrong.0@),
            consistent_words(dict, game.core.guess_state.0@, game.core.wrong.0@).len() <= n0,
            n0 >= 1 ==> consistent_words(
                dict,
                game.core.guess_state.0@,
                game.core.wrong.0@,
            ).len() >= 1,
            n0 == initial_candidates(dict, length as nat).len(),
            init_pattern == Seq::new(length as nat, |i: int| Letter::Unknown),
            n0 == 0 ==> game.core.guess_state.0@.contains(Letter::Unknown),
        decreases alphabet.len() - turns,
    {
        let st = game.core.game_state(None);
        match st {
            GameState::Done(_) => {
                proof {
                    if n0 == 0 {
                        // a pattern with unknown positions cannot be finished
                        assert(false);
                    }
                }
                return (PlayOutcome::Won, turns);
            },
            GameState::Active(state) => {
                let ghost pattern = game.core.guess_state.0@;
                let ghost wrong = game.core.wrong.0@;
                let ghost pool0 = guesser.possible_guesses@;
                let ghost pre_space = guesser.word_space.words.deep_view();
                let live = guesser.word_space.matching_state_count(&state);
                if live >= 2 {
                    let vp = guesser.viable_guess_count(&state);
                    if vp == 0 {
                        proof {
                            assert(live as nat == consistent_words(dict, pattern, wrong).len());
                            assert(n0 >= 2);
                        }
                        return (PlayOutcome::Halted, turns);
                    }
                }
                let g = guesser.guess(&state);
                match g {
                    Guess::Unknown => {
                        proof {
                            if n0 >= 1 {
                                // the adversary has kept a candidate alive
                                assert(consistent_words(dict, pattern, wrong).len() >= 1);
                                assert(false);
                            }
                        }
                        return (PlayOutcome::NoConsistentWord, turns);
                    },
                    Guess::Word(_) => {
                        proof {
                            assert(consistent_words(dict, pattern, wrong).len() == 1);
                            assert(n0 >= 1);
                        }
                        return (PlayOutcome::Won, turns);
                    },
                    Guess::Char { char: c, info: _ } => {
                        let ghost pool1 = guesser.possible_guesses@;
                        let ghost u_list = unknowns_of(pattern);
                        proof {
                            // two candidates or more remain, so two or more began
                            assert(consistent_words(dict, pattern, wrong).len() >= 2);
                            assert(n0 >= 2);
                        }
                        let indices = game.get_guess_indices(c);
                        let ghost mstar = choose|m: nat|
                            {
                                &&& m < vstd::arithmetic::power2::pow2(u_list.len())
                                &&& indices@ == #[trigger] crate::guesser::mask_indices(u_list, m)
                                &&& (m == 0 || crate::guesser::outcome_count(
                                    dict,
                                    pattern,
                                    wrong,
                                    c,
                                    u_list,
                                    m,
                                ) >= 1)
                                &&& forall|m2: nat|
                                    m2 < vstd::arithmetic::power2::pow2(u_list.len()) && (m2 == 0
                                        || crate::guesser::outcome_count(
                                        dict,
                                        pattern,
                                        wrong,
                                        c,
                                        u_list,
                                        m2,
                                    ) >= 1) ==> crate::guesser::outcome_count(
                                        dict,
                                        pattern,
                                        wrong,
                                        c,
                                        u_list,
                                        m2,
                                    ) <= #[trigger] crate::guesser::outcome_count(
                                        dict,
                                        pattern,
                                        wrong,
                                        c,
                                        u_list,
                                        m,
                                    )
                            };
                        proof {
                            crate::game::lemma_unknowns_of_props(pattern);
                            crate::guesser::lemma_mask_indices_from(u_list, mstar);
                            assert forall|t: int|
                                0 <= t < indices@.len() implies indices@[t] < pattern.len()
                                && pattern[#[trigger] indices@[t] as int] == Letter::Unknown by {
                                assert(u_list.contains(indices@[t]));
                                let j = choose|j: int|
                                    0 <= j < u_list.len() && u_list[j] == indices@[t];
                            }
                        }
                        game.core.apply_guess(c, &indices);
                        proof {
                            assert(pool1 == viable_chars(pool0, pattern, wrong));
                            lemma_viable_chars_membership(pool0, pattern, wrong);
                            assert(viable_chars(pool0, pattern, wrong).contains(c));
                            assert(viable_chars(pool0, pattern, wrong).len() >= 1);
                            assert((turns as nat) < alphabet.len());
                        }
                        turns = turns + 1;
                        proof {
                            let new_pattern = game.core.guess_state.0@;
                            let new_wrong = game.core.wrong.0@;
                            if indices@.len() == 0 {
                                lemma_viable_chars_strict(pool1, new_pattern, new_wrong, c);
                            } else {
                                let p0 = indices@[0];
                                assert(crate::game::idx_in(indices@, p0 as int));
                                assert(new_pattern[p0 as int] == Letter::Character(c));
                                assert(new_pattern.contains(Letter::Character(c)));
                                lemma_viable_chars_strict(pool1, new_pattern, new_wrong, c);
                            }
                            assert(guesser.word_space.words.deep_view() == consistent_words(
                                dict,
                                pattern,
                                wrong,
                            ));
                            lemma_turn_narrows(
                                dict,
                                guesser.word_space.words.deep_view(),
                                pattern,
                                wrong,
                                new_pattern,
                                new_wrong,
                                c,
                                indices@,
                            );
                            // the adversary keeps a candidate alive: some word of the
                            // current space is kept by one of the outcomes, the chosen
                            // outcome keeps at least as many, and the new snapshot is
                            // exactly that outcome's hypothetical state
                            let fl = consistent_words(dict, pattern, wrong);
                            lemma_consistent_words_membership(dict, pattern, wrong);
                            let w = fl[0];
                            assert(dict.contains(w) && spec_matches(w, pattern, wrong));
                            crate::guesser::lemma_word_matches_some_outcome(
                                w,
                                pattern,
                                wrong,
                                c,
                                u_list,
                            );
                            let ms = choose|m: nat|
                                m < vstd::arithmetic::power2::pow2(u_list.len())
                                    && #[trigger] crate::guesser::outcome_matches(
                                    w,
                                    pattern,
                                    wrong,
                                    c,
                                    u_list,
                                    m,
                                );
                            assert(crate::guesser::outcome_count(
                                dict,
                                pattern,
                                wrong,
                                c,
                                u_list,
                                ms,
                            ) >= 1) by {
                                if ms == 0 {
                                    lemma_consistent_words_membership(
                                        dict,
                                        pattern,
                                        wrong.push(c),
                                    );
                                    assert(consistent_words(
                                        dict,
                                        pattern,
                                        wrong.push(c),
                                    ).contains(w));
                                    let t = choose|t: int|
                                        0 <= t < consistent_words(
                                            dict,
                                            pattern,
                                            wrong.push(c),
                                        ).len() && consistent_words(
                                            dict,
                                            pattern,
                                            wrong.push(c),
                                        )[t] == w;
                                } else {
                                    let hyp = crate::game::overlay_at(
                                        pattern,
                                        c,
                                        crate::guesser::mask_indices(u_list, ms),
                                    );
                                    lemma_consistent_words_membership(dict, hyp, wrong);
                                    assert(consistent_words(dict, hyp, wrong).contains(w));
                                    let t = choose|t: int|
                                        0 <= t < consistent_words(dict, hyp, wrong).len()
                                            && consistent_words(dict, hyp, wrong)[t] == w;
                                }
                            }
                            assert(crate::guesser::outcome_count(
                                dict,
                                pattern,
                                wrong,
                                c,
                                u_list,
                                ms,
                            ) <= crate::guesser::outcome_count(
                                dict,
                                pattern,
                                wrong,
                                c,
                                u_list,
                                mstar,
                            ));
                            if indices@.len() == 0 {
                                assert(crate::guesser::mask_indices(u_list, mstar) =~= Seq::<
                                    usize,
                                >::empty());
                                crate::guesser::lemma_mask_indices_empty_zero(u_list, mstar);
                                assert(mstar == 0);
                                assert(new_wrong == wrong.push(c));
                                assert(consistent_words(dict, new_pattern, new_wrong).len()
                                    == crate::guesser::outcome_count(
                                    dict,
                                    pattern,
                                    wrong,
                                    c,
                                    u_list,
                                    0,
                                ));
                            } else {
                                assert(mstar != 0) by {
                                    if mstar == 0 {
                                        crate::game::lemma_mask_indices_zero(u_list);
                                    }
                                }
                                assert(new_pattern == crate::game::overlay_at(
                                    pattern,
                                    c,
                                    crate::guesser::mask_indices(u_list, mstar),
                                ));
                                assert(consistent_words(dict, new_pattern, new_wrong).len()
                                    == crate::guesser::outcome_count(
                                    dict,
                                    pattern,
                                    wrong,
                                    c,
                                    u_list,
                                    mstar,
                                ));
                            }
                            assert(consistent_words(dict, new_pattern, new_wrong).len() >= 1);
                        }
                    },
                }
            },
        }
    }
}

/// Play the externally arbitrated game against a reveal script: entry `t` of
/// the script names the positions disclosed for the `t`-th guess. The loop
/// halts on a script that ends or supplies an unusable entry, consumes at
/// most one entry per turn, and always terminates within one turn per
/// distinct dictionary character. A dictionary with no word of the
/// configured length is reported as having no consistent word; one with
/// exactly one such word is won at once, whatever the script.
pub fn play_partial_scripted(length: usize, words: &Words, reveals: &Vec<Vec<usize>>) -> (r: (
    PlayOutcome,
    usize,
))
    requires
        0 < length < 32,
    ensures
        char_set(words.words.deep_view()).finite(),
        r.1 as nat <= char_set(words.words.deep_view()).len(),
        r.1 <= reveals@.len(),
        initial_candidates(words.words.deep_view(), length as nat).len() == 0 ==> r.0
            is NoConsistentWord,
        initial_candidates(words.words.deep_view(), length as nat).len() == 1 ==> r.0 is Won,
{
    let ghost dict = words.words.deep_view();
    let ghost alphabet = char_set(dict);
    let ghost init_pattern = Seq::new(length as nat, |i: int| Letter::Unknown);
    let ghost n0 = initial_candidates(dict, length as nat).len();
    let pool = unique_chars(&words.words);
    let pool_len = pool.len();
    proof {
        assert(pool_len == pool@.len());
        alphabet_accounting(pool@, dict);
    }
    let mut game = PartialGame::new(length, None);
    let mut guesser = Guesser::new(WordSpace::new(words), pool);
    let mut turns: usize = 0;
    proof {
        crate::guesser::lemma_viable_chars_len(
            guesser.possible_guesses@,
            game.core.guess_state.0@,
            game.core.wrong.0@,
        );
        assert(game.core.guess_state.0@ =~= init_pattern);
        assert(game.core.wrong.0@ =~= Seq::<char>::empty());
        assert(game.core.guess_state.0@[0] == Letter::Unknown);
        assert(game.core.guess_state.0@.contains(Letter::Unknown));
    }
    loop
        invariant
            game.core.guess_state.0@.len() == length,
            0 < length < 32,
            game.core.lives == Option::<u32>::None,
            sorted_strict(guesser.possible_guesses@),
            turns as nat + viable_chars(
                guesser.possible_guesses@,
                game.core.guess_state.0@,
                game.core.wrong.0@,
            ).len() <= alphabet.len(),
            alphabet == char_set(dict),
            alphabet.finite(),
            alphabet.len() <= usize::MAX,
            dict == words.words.deep_view(),
            turns <= reveals@.len(),
            consistent_words(
                guesser.word_space.words.deep_view(),
                game.core.guess_state.0@,
                game.core.wrong.0@,
            ) == consistent_words(dict, game.core.guess_state.0@, game.core.wrong.0@),
            consistent_words(dict, game.core.guess_state.0@, game.core.wrong.0@).len() <= n0,
            n0 == initial_candidates(dict, length as nat).len(),
            init_pattern == Seq::new(length as nat, |i: int| Letter::Unknown),
            n0 == 0 ==> game.core.guess_state.0@.contains(Letter::Unknown),
            n0 == 1 ==> (game.core.wrong.0@ == Seq::<char>::empty() && game.core.guess_state.0@
                == init_pattern),
        decreases alphabet.len() - turns,
    {
        let st = game.core.game_state(None);
        match st {
            GameState::Done(_) => {
                proof {
                    if n0 == 0 {
                        // a pattern with unknown positions cannot be finished
                        assert(false);
                    }
                }
                return (PlayOutcome::Won, turns);
            },
            GameState::Active(state) => {
                let ghost pattern = game.core.guess_state.0@;
                let ghost wrong = game.core.wrong.0@;
                let ghost pool0 = guesser.possible_guesses@;
                let ghost pre_space = guesser.word_space.words.deep_view();
                let live = guesser.word_space.matching_state_count(&state);
                if live >= 2 {
                    let vp = guesser.viable_guess_count(&state);
                    if vp == 0 {
                        proof {
                            assert(live as nat == consistent_words(dict, pattern, wrong).len());
                            assert(n0 >= 2);
                        }
                        return (PlayOutcome::Halted, turns);
                    }
                }
                let g = guesser.guess(&state);
                match g {
                    Guess::Unknown => {
                        proof {
                            if n0 == 1 {
                                // the single initial candidate never leaves
                                assert(pattern == init_pattern);
                                assert(wrong =~= Seq::<char>::empty());
                                assert(consistent_words(dict, pattern, wrong)
                                    == initial_candidates(dict, length as nat));
                                assert(false);
                            }
                        }
                        return (PlayOutcome::NoConsistentWord, turns);
                    },
                    Guess::Word(_) => {
                        proof {
                            assert(consistent_words(dict, pattern, wrong).len() == 1);
                            assert(n0 >= 1);
                        }
                        return (PlayOutcome::Won, turns);
                    },
                    Guess::Char { char: c, info: _ } => {
                        let ghost pool1 = guesser.possible_guesses@;
                        proof {
                            // two candidates or more remain, so two or more began
                            assert(consistent_words(dict, pattern, wrong).len() >= 2);
                            assert(n0 >= 2);
                        }
                        if turns >= reveals.len() {
                            return (PlayOutcome::Halted, turns);
                        }
                        let indices = &reveals[turns];
                        if !game.indices_valid(indices) {
                            return (PlayOutcome::Halted, turns);
                        }
                        game.core.apply_guess(c, indices);
                        proof {
                            assert(pool1 == viable_chars(pool0, pattern, wrong));
                            lemma_viable_chars_membership(pool0, pattern, wrong);
                            assert(viable_chars(pool0, pattern, wrong).contains(c));
                            assert(viable_chars(pool0, pattern, wrong).len() >= 1);
                            assert((turns as nat) < alphabet.len());
                        }
                        turns = turns + 1;
                        proof {
                            let new_pattern = game.core.guess_state.0@;
                            let new_wrong = game.core.wrong.0@;
                            if indices@.len() == 0 {
                                lemma_viable_chars_strict(pool1, new_pattern, new_wrong, c);
                            } else {
                                let p0 = indices@[0];
                                assert(crate::game::idx_in(indices@, p0 as int));
                                assert(new_pattern[p0 as int] == Letter::Character(c));
                                assert(new_pattern.contains(Letter::Character(c)));
                                lemma_viable_chars_strict(pool1, new_pattern, new_wrong, c);
                            }
                            assert(guesser.word_space.words.deep_view() == consistent_words(
                                dict,
                                pattern,
                                wrong,
                            ));
                            lemma_turn_narrows(
                                dict,
                                guesser.word_space.words.deep_view(),
                                pattern,
                                wrong,
                                new_pattern,
                                new_wrong,
                                c,
                                indices@,
                            );
                        }
                    },
                }
            },
        }
    }
}

/// Why a game could not be configured.
pub enum ConfigurationError {
    /// The target word (or configured length) has no positions at all.
    ZeroLength,
    /// The dictionary holds no words.
    EmptyDictionary,
    /// A literal target was named but is not in the dictionary.
    TargetNotInDictionary,
    /// The word length is too large for the outcome enumeration, which walks
    /// all subsets of the unknown positions: it must stay below 32.
    LengthTooLarge,
}

/// A configured game, ready to play.
pub enum GameData {
    /// The secret word is known: reveals follow the word.
    Full { word: Vec<char>, words: Words },
    /// No word is committed: reveals follow the given script, one entry of
    /// revealed positions per guess.
    Partial { length: usize, words: Words, reveals: Vec<Vec<usize>> },
    /// No word is committed: the adversary chooses the reveals.
    Antagonistic { length: usize, words: Words },
}

/// What a configured game guarantees before play starts.
pub open spec fn valid_game_data(data: GameData) -> bool {
    match data {
        GameData::Full { word, words } => 0 < word@.len() < 32 && words.words.deep_view().contains(
            word@,
        ),
        GameData::Partial { length, words, reveals } => 0 < length < 32,
        GameData::Antagonistic { length, words } => 0 < length < 32,
    }
}

/// The dictionary a configured game draws from.
pub open spec fn game_data_dict(data: GameData) -> Seq<Seq<char>> {
    match data {
        GameData::Full { word, words } => words.words.deep_view(),
        GameData::Partial { length, words, reveals } => words.words.deep_view(),
        GameData::Antagonistic { length, words } => words.words.deep_view(),
    }
}

/// Decide whether two words are the same.
pub fn chars_equal(a: &Vec<char>, b: &Vec<char>) -> (r: bool)
    ensures
        r == (a@ == b@),
{
    if a.len() != b.len() {
        proof {
            assert(a@.len() != b@.len());
        }
        return false;
    }
    let mut k: usize = 0;
    while k < a.len()
        invariant
            k <= a@.len(),
            a@.len() == b@.len(),
            forall|i: int| 0 <= i < k ==> a@[i] == b@[i],
        decreases a@.len() - k,
    {
        if a[k] != b[k] {
            return false;
        }
        k = k + 1;
    }
    proof {
        assert(a@ =~= b@);
    }
    true
}

/// Decide whether the dictionary holds the given word.
fn dictionary_contains(words: &Words, w: &Vec<char>) -> (r: bool)
    ensures
        r == words.words.deep_view().contains(w@),
{
    let mut k: usize = 0;
    while k < words.words.len()
        invariant
            k <= words.words@.len(),
            forall|i: int| 0 <= i < k ==> words.words.deep_view()[i] != w@,
        decreases words.words@.len() - k,
    {
        proof {
            crate::words::lemma_word_deep_view(words.words@[k as int]);
        }
        if chars_equal(&words.words[k], w) {
            proof {
                assert(words.words.deep_view()[k as int] == w@);
            }
            return true;
        }
        k = k + 1;
    }
    proof {
        if words.words.deep_view().contains(w@) {
            let i = choose|i: int|
                0 <= i < words.words.deep_view().len() && words.words.deep_view()[i] == w@;
        }
    }
    false
}

/// Turn the launch arguments into a configured game, rejecting what cannot
/// be played: an empty dictionary, a zero-length word, a word too long for
/// the outcome enumeration, or a named target absent from the dictionary.
/// With neither a word nor a length, a random dictionary word becomes the
/// target.
pub fn game_data_from_args(
    word: Option<Vec<char>>,
    length: Option<usize>,
    antagonistic: bool,
    words: Words,
    reveals: Vec<Vec<usize>>,
) -> (r: Result<GameData, ConfigurationError>)
    ensures
        r matches Ok(data) ==> valid_game_data(data) && game_data_dict(data)
            == words.words.deep_view(),
        r matches Ok(data) ==> match length {
            Option::Some(l) => if antagonistic {
                data matches GameData::Antagonistic { length: gl, .. } && gl == l
            } else {
                (data matches GameData::Partial { length: gl, reveals: rv, .. } && gl == l
                    && rv.deep_view() == reveals.deep_view())
            },
            Option::None => data is Full && (word matches Option::Some(w) ==> data
                matches GameData::Full { word: gw, .. } && gw@ == w@),
        },
        words.words@.len() == 0 ==> r == Result::<GameData, ConfigurationError>::Err(
            ConfigurationError::EmptyDictionary,
        ),
        words.words@.len() > 0 ==> (length matches Option::Some(l) ==> if l == 0 {
            r == Result::<GameData, ConfigurationError>::Err(ConfigurationError::ZeroLength)
        } else if l >= 32 {
            r == Result::<GameData, ConfigurationError>::Err(ConfigurationError::LengthTooLarge)
        } else {
            r is Ok
        }),
        (words.words@.len() > 0 && length is None) ==> (word matches Option::Some(w)
            ==> if !words.words.deep_view().contains(w@) {
            r == Result::<GameData, ConfigurationError>::Err(
                ConfigurationError::TargetNotInDictionary,
            )
        } else if w@.len() == 0 {
            r == Result::<GameData, ConfigurationError>::Err(ConfigurationError::ZeroLength)
        } else if w@.len() >= 32 {
            r == Result::<GameData, ConfigurationError>::Err(ConfigurationError::LengthTooLarge)
        } else {
            r is Ok
        }),
{
    if words.words.len() == 0 {
        return Err(ConfigurationError::EmptyDictionary);
    }
    match length {
        Option::Some(l) => {
            if l == 0 {
                Err(ConfigurationError::ZeroLength)
            } else if l >= 32 {
                Err(ConfigurationError::LengthTooLarge)
            } else if antagonistic {
                Ok(GameData::Antagonistic { length: l, words })
            } else {
                Ok(GameData::Partial { length: l, words, reveals })
            }
        },
        Option::None => {
            let target = match word {
                Option::Some(w) => {
                    if !dictionary_contains(&words, &w) {
                        return Err(ConfigurationError::TargetNotInDictionary);
                    }
                    w
                },
                Option::None => words.random_word(),
            };
            if target.len() == 0 {
                Err(ConfigurationError::ZeroLength)
            } else if target.len() >= 32 {
                Err(ConfigurationError::LengthTooLarge)
            } else {
                Ok(GameData::Full { word: target, words })
            }
        },
    }
}

/// Play a configured game to its end with the automated provider: every turn
/// the engine's top suggestion is guessed. The game against a known word is
/// always won; every variant finishes within one turn per distinct
/// dictionary character. The variants without a committed word report a
/// dictionary holding no word of the configured length as having no
/// consistent word, win at once on exactly one such word, and — against the
/// adversary, which always keeps a candidate alive — never exhaust the
/// candidates otherwise.
pub fn play_game(data: GameData) -> (r: (PlayOutcome, usize))
    requires
        valid_game_data(data),
    ensures
        char_set(game_data_dict(data)).finite(),
        r.1 as nat <= char_set(game_data_dict(data)).len(),
        data is Full ==> r.0 is Won,
        data matches GameData::Antagonistic { length, .. } ==> {
            &&& (initial_candidates(game_data_dict(data), length as nat).len() == 0 ==> r.0
                is NoConsistentWord)
            &&& (initial_candidates(game_data_dict(data), length as nat).len() >= 1 ==> !(r.0
                is NoConsistentWord))
            &&& (initial_candidates(game_data_dict(data), length as nat).len() == 1 ==> r.0
                is Won)
        },
        data matches GameData::Partial { length, reveals, .. } ==> {
            &&& r.1 <= reveals@.len()
            &&& (initial_candidates(game_data_dict(data), length as nat).len() == 0 ==> r.0
                is NoConsistentWord)
            &&& (initial_candidates(game_data_dict(data), length as nat).len() == 1 ==> r.0
                is Won)
        },
{
    match data {
        GameData::Full { word, words } => play_full_auto(word, &words),
        GameData::Partial { length, words, reveals } => play_partial_scripted(
            length,
            &words,
            &reveals,
        ),
        GameData::Antagonistic { length, words } => play_antagonistic_auto(length, &words),
    }
}

} // verus!
