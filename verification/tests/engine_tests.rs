use executioner::game::{
    ActiveState, AntagonisticGame, FullGame, GameCore, GameOutcome, GameState, GuessState, Letter,
    PartialGame, WrongGuesses,
};
use executioner::guesser::{log2_fixed_exec, pow2_exec, Guess, Guesser};
use executioner::guessers::FrequencyGuesser;
use executioner::words::{unique_chars, WordSpace, Words};
use executioner::{game_data_from_args, play_game, ConfigurationError, GameData, PlayOutcome};

fn word(s: &str) -> Vec<char> {
    s.chars().collect()
}

fn dictionary(entries: &[&str]) -> Words {
    Words { words: entries.iter().map(|e| word(e)).collect() }
}

fn all_unknown_state(length: usize) -> ActiveState {
    ActiveState { guess: GuessState::new(length), wrong: WrongGuesses::new(), lives: None }
}

#[test]
fn matches_exact_word() {
    let state = all_unknown_state(3);
    assert!(state.does_match(&word("cat")));
    assert!(state.does_match(&word("dog")));
    assert!(!state.does_match(&word("horse")));
    assert!(!state.does_match(&word("at")));
}

#[test]
fn matches_respects_pattern() {
    let mut state = all_unknown_state(3);
    state.guess.0[0] = Letter::Character('c');
    assert!(state.does_match(&word("cat")));
    assert!(state.does_match(&word("can")));
    assert!(!state.does_match(&word("bat")));
}

#[test]
fn wrong_set_exclusion_is_total() {
    // the wrong character disqualifies the word even at positions the
    // pattern never compares
    let mut state = all_unknown_state(3);
    state.guess.0[0] = Letter::Character('c');
    state.wrong.insert('t');
    assert!(!state.does_match(&word("cat")));
    assert!(state.does_match(&word("can")));
}

#[test]
fn filtering_is_idempotent() {
    let words = dictionary(&["cat", "car", "can", "dog", "cart"]);
    let mut state = all_unknown_state(3);
    state.wrong.insert('n');
    let mut once = WordSpace::new(&words);
    once.filter_with_guess(&state);
    let mut twice = WordSpace::new(&words);
    twice.filter_with_guess(&state);
    twice.filter_with_guess(&state);
    assert_eq!(once.words, twice.words);
    assert_eq!(once.words, vec![word("cat"), word("car"), word("dog")]);
}

#[test]
fn candidate_space_never_grows() {
    let words = dictionary(&["cat", "car", "can"]);
    let mut space = WordSpace::new(&words);
    let mut previous = space.word_count();
    let mut state = all_unknown_state(3);
    state.wrong.insert('t');
    space.filter_with_guess(&state);
    assert!(space.word_count() <= previous);
    previous = space.word_count();
    state.guess.0[1] = Letter::Character('a');
    space.filter_with_guess(&state);
    assert!(space.word_count() <= previous);
    previous = space.word_count();
    state.wrong.insert('n');
    space.filter_with_guess(&state);
    assert!(space.word_count() <= previous);
    assert_eq!(space.words, vec![word("car")]);
}

#[test]
fn outcomes_partition_candidates() {
    // guessing 't' against {cat, car, can}: the "absent" outcome keeps two
    // candidates, 't' at the last position keeps one, every other outcome
    // keeps none; the counts sum to the whole space
    let words = dictionary(&["cat", "car", "can"]);
    let space = WordSpace::new(&words);
    let base = all_unknown_state(3);

    let mut absent = all_unknown_state(3);
    absent.wrong.insert('t');
    let absent_count = space.matching_state_count(&absent);
    assert_eq!(absent_count, 2);

    let mut total = absent_count;
    for mask in 1u32..8 {
        let mut hyp = all_unknown_state(3);
        for position in 0..3 {
            if mask & (1 << position) != 0 {
                hyp.guess.0[position] = Letter::Character('t');
            }
        }
        let count = space.matching_state_count(&hyp);
        if mask == 4 {
            assert_eq!(count, 1); // pattern "__t" keeps exactly {cat}
        } else {
            assert_eq!(count, 0);
        }
        total += count;
    }
    assert_eq!(total, space.matching_state_count(&base));
    assert_eq!(total, 3);
}

#[test]
fn certain_guess_resolves_nothing() {
    // guessing 'c', or 'a' at the middle position, yields one outcome that
    // covers every candidate: fraction one, and no information
    let words = dictionary(&["cat", "car", "can"]);
    let space = WordSpace::new(&words);
    let mut hyp = all_unknown_state(3);
    hyp.guess.0[0] = Letter::Character('c');
    assert_eq!(space.matching_state_count(&hyp), 3);
    let mut middle = all_unknown_state(3);
    middle.guess.0[1] = Letter::Character('a');
    assert_eq!(space.matching_state_count(&middle), 3);
    assert_eq!(log2_fixed_exec(3, 3), 0);
}

#[test]
fn log2_fixed_reference_values() {
    // exact powers of two come out exactly, in units of 2^-16 bits
    assert_eq!(log2_fixed_exec(1, 1), 0);
    assert_eq!(log2_fixed_exec(2, 1), 0x10000);
    assert_eq!(log2_fixed_exec(4, 1), 0x20000);
    assert_eq!(log2_fixed_exec(1024, 1), 10 * 0x10000);
    assert_eq!(log2_fixed_exec(6, 3), 0x10000);
    // log2(3) is about 1.58496
    let three = log2_fixed_exec(3, 1) as f64 / 65536.0;
    assert!((three - 1.58496).abs() < 0.001);
    // log2(3/2) is about 0.58496
    let half = log2_fixed_exec(3, 2) as f64 / 65536.0;
    assert!((half - 0.58496).abs() < 0.001);
}

#[test]
fn entropy_worked_example() {
    // dictionary {cat, car, can}: guessing 't', 'r' or 'n' splits the
    // candidates 1/3 versus 2/3, worth about 0.918 bits; 'c' and 'a' reveal
    // nothing. The top suggestion is the smallest of the three by code
    // point: 'n'.
    let words = dictionary(&["cat", "car", "can"]);
    let mut guesser = Guesser::new(WordSpace::new(&words), unique_chars(&words.words));
    let state = all_unknown_state(3);
    match guesser.guess(&state) {
        Guess::Char { char: c, info } => {
            assert_eq!(c, 'n');
            let bits = info as f64 / 65536.0;
            let expected = (1.0f64 / 3.0) * 3.0f64.log2() + (2.0 / 3.0) * 1.5f64.log2();
            assert!((bits - expected).abs() < 0.001);
            assert!((bits - 0.918).abs() < 0.001);
        },
        _ => panic!("expected a character suggestion"),
    }
}

#[test]
fn entropy_zero_when_nothing_to_learn() {
    // with two copies of one word, every character is fully determined:
    // each guess resolves nothing, and the smallest character wins the tie
    let words = dictionary(&["cat", "cat"]);
    let mut guesser = Guesser::new(WordSpace::new(&words), unique_chars(&words.words));
    let state = all_unknown_state(3);
    match guesser.guess(&state) {
        Guess::Char { char: c, info } => {
            assert_eq!(c, 'a');
            assert_eq!(info, 0);
        },
        _ => panic!("expected a character suggestion"),
    }
}

#[test]
fn selector_never_repeats_resolved_characters() {
    let words = dictionary(&["cat", "car", "can"]);
    let mut guesser = Guesser::new(WordSpace::new(&words), unique_chars(&words.words));
    let mut state = all_unknown_state(3);
    state.guess.0[0] = Letter::Character('c');
    state.guess.0[1] = Letter::Character('a');
    state.wrong.insert('t');
    match guesser.guess(&state) {
        Guess::Char { char: c, .. } => {
            assert_ne!(c, 'c');
            assert_ne!(c, 'a');
            assert_ne!(c, 't');
        },
        Guess::Word(w) => {
            // with 't' wrong only {car, can} remain, so a character still
            // comes back; reaching here would mean one candidate was left
            assert!(w == word("car") || w == word("can"));
            panic!("two candidates remain, a character was expected");
        },
        Guess::Unknown => panic!("candidates remain, a suggestion was expected"),
    }
}

#[test]
fn selector_reports_single_candidate() {
    let words = dictionary(&["cat", "car"]);
    let mut guesser = Guesser::new(WordSpace::new(&words), unique_chars(&words.words));
    let pool_before = guesser.possible_guesses.clone();
    let mut state = all_unknown_state(3);
    state.wrong.insert('t');
    match guesser.guess(&state) {
        Guess::Word(w) => assert_eq!(w, word("car")),
        _ => panic!("exactly one candidate should remain"),
    }
    // with fewer than two candidates the pool is left untouched
    assert_eq!(guesser.possible_guesses, pool_before);
}

#[test]
fn selector_reports_exhausted_candidates() {
    let words = dictionary(&["cat"]);
    let mut guesser = Guesser::new(WordSpace::new(&words), unique_chars(&words.words));
    let mut state = all_unknown_state(3);
    state.wrong.insert('c');
    state.wrong.insert('a');
    state.wrong.insert('t');
    match guesser.guess(&state) {
        Guess::Unknown => {},
        _ => panic!("no candidate is consistent with that knowledge"),
    }
}

#[test]
fn adversarial_example() {
    // same dictionary, guessing 't': "absent" keeps {car, can} (two words),
    // 't' at the last position keeps only {cat}; the adversary answers
    // "absent", returning no revealed position
    let words = dictionary(&["cat", "car", "can"]);
    let game = AntagonisticGame::new(3, WordSpace::new(&words), None);
    let indices = game.get_guess_indices('t');
    assert!(indices.is_empty());
}

#[test]
fn adversarial_prefers_largest_outcome() {
    // guessing 'c' against {cat, car, can}: "absent" keeps nothing, while
    // revealing 'c' at the first position keeps all three
    let words = dictionary(&["cat", "car", "can"]);
    let game = AntagonisticGame::new(3, WordSpace::new(&words), None);
    let indices = game.get_guess_indices('c');
    assert_eq!(indices, vec![0]);
}

#[test]
fn known_word_reveal_policy() {
    let game = FullGame::new(word("banana"), None);
    assert_eq!(game.get_guess_indices('a'), vec![1, 3, 5]);
    assert_eq!(game.get_guess_indices('b'), vec![0]);
    assert_eq!(game.get_guess_indices('x'), Vec::<usize>::new());
}

#[test]
fn apply_guess_reveals_or_records() {
    let mut core = GameCore::new(3, Some(2));
    core.apply_guess('a', &vec![1]);
    assert!(matches!(core.guess_state.0[1], Letter::Character('a')));
    assert_eq!(core.lives, Some(2));
    core.apply_guess('z', &vec![]);
    assert!(core.wrong.contains('z'));
    assert_eq!(core.lives, Some(1));
}

#[test]
fn game_state_terminal_rules() {
    let mut core = GameCore::new(2, Some(1));
    match core.game_state(None) {
        GameState::Active(state) => assert_eq!(state.lives, Some(1)),
        _ => panic!("the game has only begun"),
    }
    core.apply_guess('q', &vec![]);
    match core.game_state(Some(&word("no"))) {
        GameState::Done(GameOutcome::Lost(Some(w))) => assert_eq!(w, word("no")),
        _ => panic!("no life is left, the game is lost"),
    }
    let mut won = GameCore::new(2, None);
    won.apply_guess('n', &vec![0]);
    won.apply_guess('o', &vec![1]);
    match won.game_state(None) {
        GameState::Done(GameOutcome::Won) => {},
        _ => panic!("the pattern is complete, the game is won"),
    }
}

#[test]
fn partial_game_validates_indices() {
    let game = PartialGame::new(3, None);
    assert!(game.indices_valid(&vec![]));
    assert!(game.indices_valid(&vec![0, 2]));
    assert!(!game.indices_valid(&vec![3]));
    assert!(!game.indices_valid(&vec![1, 1]));
    let mut revealed = PartialGame::new(3, None);
    revealed.core.apply_guess('a', &vec![1]);
    assert!(!revealed.indices_valid(&vec![1]));
}

#[test]
fn words_from_splits_lines() {
    let text: Vec<char> = "cat\ncar\n\ncan".chars().collect();
    let words = Words::from(&text);
    assert_eq!(words.words, vec![word("cat"), word("car"), word(""), word("can")]);
    let trailing: Vec<char> = "dog\n".chars().collect();
    assert_eq!(Words::from(&trailing).words, vec![word("dog"), word("")]);
}

#[test]
fn random_word_comes_from_dictionary() {
    let words = dictionary(&["cat", "car", "can"]);
    for _ in 0..16 {
        let w = words.random_word();
        assert!(words.words.contains(&w));
    }
}

#[test]
fn unique_chars_sorted_and_distinct() {
    let words = dictionary(&["banana", "cab"]);
    let chars = unique_chars(&words.words);
    assert_eq!(chars, vec!['a', 'b', 'c', 'n']);
}

#[test]
fn wrong_guesses_do_not_duplicate() {
    let mut wrong = WrongGuesses::new();
    wrong.insert('x');
    wrong.insert('y');
    wrong.insert('x');
    assert_eq!(wrong.0, vec!['x', 'y']);
}

#[test]
fn frequency_guesser_picks_commonest() {
    // c and a occur in all three words; the tie goes to 'a'
    let words = dictionary(&["cat", "car", "can"]);
    let mut guesser = FrequencyGuesser::new(words);
    let state = all_unknown_state(3);
    assert_eq!(guesser.suggest(&state), Some('a'));
}

#[test]
fn frequency_guesser_exhausts() {
    let words = dictionary(&["a"]);
    let mut guesser = FrequencyGuesser::new(words);
    let mut state = all_unknown_state(1);
    state.guess.0[0] = Letter::Character('a');
    assert_eq!(guesser.suggest(&state), None);
}

#[test]
fn automated_full_game_is_won() {
    let words = dictionary(&["cat", "car", "can"]);
    let data = GameData::Full { word: word("cat"), words };
    let (outcome, turns) = play_game(data);
    assert!(matches!(outcome, PlayOutcome::Won));
    // five distinct characters occur in the dictionary
    assert!(turns <= 5);
}

#[test]
fn automated_full_game_any_target() {
    let entries = ["cat", "car", "can", "cot", "nag"];
    for target in entries {
        let words = dictionary(&entries);
        let data = GameData::Full { word: word(target), words };
        let (outcome, turns) = play_game(data);
        assert!(matches!(outcome, PlayOutcome::Won));
        assert!(turns <= 7); // a, c, g, n, o, r, t
    }
}

#[test]
fn automated_antagonistic_game_terminates() {
    let words = dictionary(&["cat", "car", "can"]);
    let data = GameData::Antagonistic { length: 3, words };
    let (outcome, turns) = play_game(data);
    assert!(matches!(outcome, PlayOutcome::Won));
    assert!(turns <= 5);
}

#[test]
fn scripted_game_halts_without_script() {
    let words = dictionary(&["cat", "car", "can"]);
    let data = GameData::Partial { length: 3, words, reveals: vec![] };
    let (outcome, turns) = play_game(data);
    assert!(matches!(outcome, PlayOutcome::Halted));
    // a turn consumes a script entry, and the script was empty
    assert_eq!(turns, 0);
}

#[test]
fn scripted_game_reports_exhausted_length() {
    // no dictionary word has four letters: knowledge is contradictory at once
    let words = dictionary(&["cat", "car", "can"]);
    let data = GameData::Partial { length: 4, words, reveals: vec![vec![0]] };
    let (outcome, turns) = play_game(data);
    assert!(matches!(outcome, PlayOutcome::NoConsistentWord));
    assert_eq!(turns, 0);
}

#[test]
fn scripted_game_wins_single_candidate() {
    // exactly one word has four letters: it is taken at once, whatever the script
    let words = dictionary(&["cat", "four"]);
    let data = GameData::Partial { length: 4, words, reveals: vec![] };
    let (outcome, turns) = play_game(data);
    assert!(matches!(outcome, PlayOutcome::Won));
    assert_eq!(turns, 0);
}

#[test]
fn antagonistic_game_reports_exhausted_length() {
    let words = dictionary(&["cat", "car", "can"]);
    let data = GameData::Antagonistic { length: 4, words };
    let (outcome, turns) = play_game(data);
    assert!(matches!(outcome, PlayOutcome::NoConsistentWord));
    assert_eq!(turns, 0);
}

#[test]
fn antagonistic_game_wins_single_candidate() {
    let words = dictionary(&["cat", "four"]);
    let data = GameData::Antagonistic { length: 4, words };
    let (outcome, turns) = play_game(data);
    assert!(matches!(outcome, PlayOutcome::Won));
    assert_eq!(turns, 0);
}

#[test]
fn game_state_disclosed_word_is_the_target() {
    let mut core = GameCore::new(3, Some(1));
    core.apply_guess('q', &vec![]);
    match core.game_state(Some(&word("cat"))) {
        GameState::Done(GameOutcome::Lost(Some(w))) => assert_eq!(w, word("cat")),
        _ => panic!("the lost game must disclose the known target"),
    }
    let mut unknown_target = GameCore::new(3, Some(1));
    unknown_target.apply_guess('q', &vec![]);
    match unknown_target.game_state(None) {
        GameState::Done(GameOutcome::Lost(None)) => {}
        _ => panic!("with no known target nothing is disclosed"),
    }
}

#[test]
fn configuration_errors() {
    let empty = Words { words: vec![] };
    match game_data_from_args(None, Some(3), false, empty, vec![]) {
        Err(ConfigurationError::EmptyDictionary) => {},
        _ => panic!("an empty dictionary cannot be played"),
    }
    match game_data_from_args(None, Some(0), false, dictionary(&["cat"]), vec![]) {
        Err(ConfigurationError::ZeroLength) => {},
        _ => panic!("a zero-length word cannot be played"),
    }
    match game_data_from_args(None, Some(32), true, dictionary(&["cat"]), vec![]) {
        Err(ConfigurationError::LengthTooLarge) => {},
        _ => panic!("the outcome enumeration caps the length"),
    }
    match game_data_from_args(Some(word("dog")), None, false, dictionary(&["cat"]), vec![]) {
        Err(ConfigurationError::TargetNotInDictionary) => {},
        _ => panic!("a named target must be in the dictionary"),
    }
}

#[test]
fn configuration_modes() {
    match game_data_from_args(Some(word("cat")), None, false, dictionary(&["cat"]), vec![]) {
        Ok(GameData::Full { word: w, .. }) => assert_eq!(w, word("cat")),
        _ => panic!("a named dictionary word configures the known-word game"),
    }
    match game_data_from_args(None, Some(3), true, dictionary(&["cat"]), vec![]) {
        Ok(GameData::Antagonistic { length, .. }) => assert_eq!(length, 3),
        _ => panic!("a length with the adversarial flag configures the adversary"),
    }
    match game_data_from_args(None, Some(3), false, dictionary(&["cat"]), vec![vec![0]]) {
        Ok(GameData::Partial { length, reveals, .. }) => {
            assert_eq!(length, 3);
            assert_eq!(reveals, vec![vec![0]]);
        },
        _ => panic!("a length without the adversarial flag configures external choice"),
    }
    match game_data_from_args(None, None, false, dictionary(&["cat", "car"]), vec![]) {
        Ok(GameData::Full { word: w, .. }) => {
            assert!(w == word("cat") || w == word("car"));
        },
        _ => panic!("without arguments a random dictionary word is the target"),
    }
}

#[test]
fn pow2_exec_values() {
    assert_eq!(pow2_exec(0), 1);
    assert_eq!(pow2_exec(5), 32);
    assert_eq!(pow2_exec(31), 0x8000_0000);
}
