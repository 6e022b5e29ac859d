use wordle_solver::{
    evaluate_guess, FrequencyPredicate, GameState, GuessOutcome, LetterOutcome, Progress,
    BEST_FIRST_GUESS,
};

fn words(list: &[&str]) -> Vec<String> {
    list.iter().map(|word| word.to_string()).collect()
}

fn bounds(min: Option<u8>, max: Option<u8>) -> FrequencyPredicate {
    FrequencyPredicate { min_occurrences: min, max_occurrences: max }
}

#[test]
fn opening_word_is_roate() {
    assert_eq!(BEST_FIRST_GUESS, "ROATE");
}

#[test]
fn fresh_state_proposes_the_opening_word() {
    let dictionary = words(&["ROATE", "ABATE", "BEATS"]);
    let solutions = words(&["ABATE", "BEATS"]);
    let state = GameState::new(&dictionary, &solutions);
    assert!(state.is_initial_state());
    assert_eq!(state.calculate_best_guess(), "ROATE");
}

#[test]
fn opening_word_does_not_depend_on_the_lists() {
    let dictionary = words(&["QUICK"]);
    let no_solutions = words(&[]);
    assert_eq!(GameState::new(&dictionary, &no_solutions).calculate_best_guess(), "ROATE");
    let one_solution = words(&["ABATE"]);
    assert_eq!(GameState::new(&dictionary, &one_solution).calculate_best_guess(), "ROATE");
    let many = words(&["ABATE", "BEATS", "CRATE", "SLATE"]);
    assert_eq!(GameState::new(&many, &many).calculate_best_guess(), "ROATE");
}

#[test]
fn fresh_state_keeps_every_solution() {
    let dictionary = words(&["ROATE"]);
    let solutions = words(&["ABATE", "BEATS", "CRATE"]);
    let state = GameState::new(&dictionary, &solutions);
    assert_eq!(state.possible_solutions(), &solutions);
    assert!(!state.is_exhausted());
    for letter in 'A'..='Z' {
        assert_eq!(state.letter_frequency(letter), bounds(None, None));
        for position in 0..5 {
            assert!(state.is_possible_letter(position, letter));
        }
    }
    assert!(!state.is_possible_letter(0, 'a'));
    assert!(!state.is_possible_letter(0, '-'));
}

#[test]
fn end_to_end_roate_against_abate() {
    let dictionary = words(&["ROATE", "ABATE", "BEATS"]);
    let solutions = words(&["ABATE", "BEATS"]);
    let mut state = GameState::new(&dictionary, &solutions);
    let guess = state.calculate_best_guess().to_string();
    assert_eq!(guess, "ROATE");
    let outcome = evaluate_guess(&guess, "ABATE");
    assert_eq!(
        outcome.letters,
        vec![
            ('R', LetterOutcome::Absent),
            ('O', LetterOutcome::Absent),
            ('A', LetterOutcome::Correct),
            ('T', LetterOutcome::Correct),
            ('E', LetterOutcome::Correct),
        ]
    );
    assert!(!outcome.is_win());
    assert!(state.accepts(&outcome));
    state.update(outcome);
    assert!(!state.is_initial_state());
    assert_eq!(state.possible_solutions(), &words(&["ABATE"]));
    assert_eq!(state.calculate_best_guess(), "ABATE");
    assert!(evaluate_guess(state.calculate_best_guess(), "ABATE").is_win());
}

#[test]
fn single_candidate_is_proposed() {
    let dictionary = words(&["QUICK", "MOUND"]);
    let solutions = words(&["ABATE", "MOUND"]);
    let mut state = GameState::new(&dictionary, &solutions);
    state.update(GuessOutcome::parse("QUICK", "BBBBB"));
    // The candidate is proposed although the dictionary does not hold it.
    assert_eq!(state.possible_solutions(), &words(&["ABATE"]));
    assert_eq!(state.calculate_best_guess(), "ABATE");
}

#[test]
fn update_records_correct_letters() {
    let dictionary = words(&["ROATE"]);
    let solutions = words(&["ABATE", "BEATS"]);
    let mut state = GameState::new(&dictionary, &solutions);
    state.update(GuessOutcome::parse("ROATE", "BBGGG"));
    for letter in 'A'..='Z' {
        assert_eq!(state.is_possible_letter(0, letter), letter != 'R');
        assert_eq!(state.is_possible_letter(1, letter), letter != 'O');
        assert_eq!(state.is_possible_letter(2, letter), letter == 'A');
        assert_eq!(state.is_possible_letter(3, letter), letter == 'T');
        assert_eq!(state.is_possible_letter(4, letter), letter == 'E');
    }
    assert_eq!(state.letter_frequency('R'), bounds(None, Some(0)));
    assert_eq!(state.letter_frequency('O'), bounds(None, Some(0)));
    assert_eq!(state.letter_frequency('A'), bounds(Some(1), None));
    assert_eq!(state.letter_frequency('T'), bounds(Some(1), None));
    assert_eq!(state.letter_frequency('E'), bounds(Some(1), None));
    assert_eq!(state.letter_frequency('B'), bounds(None, None));
}

#[test]
fn update_records_the_exact_count_of_a_repeated_letter() {
    let dictionary = words(&["ROATE"]);
    let solutions = words(&["ABIDE", "ERASE", "STEAL", "CREPE", "ELDER", "EDGES"]);
    let mut state = GameState::new(&dictionary, &solutions);
    // The first E is present, the second absent: the solution has exactly one E.
    state.update(GuessOutcome::parse("SPEED", "BBYBY"));
    assert_eq!(state.letter_frequency('E'), bounds(Some(1), Some(1)));
    assert_eq!(state.letter_frequency('D'), bounds(Some(1), None));
    assert_eq!(state.letter_frequency('S'), bounds(None, Some(0)));
    assert_eq!(state.letter_frequency('P'), bounds(None, Some(0)));
    assert!(!state.is_possible_letter(2, 'E'));
    assert!(!state.is_possible_letter(3, 'E'));
    assert!(state.is_possible_letter(4, 'E'));
    assert!(!state.is_possible_letter(4, 'D'));
    assert_eq!(state.possible_solutions(), &words(&["ABIDE"]));
}

#[test]
fn update_counts_two_non_absent_occurrences() {
    let dictionary = words(&["ROATE"]);
    let solutions = words(&["ERASE", "CREPE", "ABIDE"]);
    let mut state = GameState::new(&dictionary, &solutions);
    state.update(GuessOutcome::parse("SPEED", "YBYYB"));
    assert_eq!(state.letter_frequency('E'), bounds(Some(2), None));
    assert_eq!(state.letter_frequency('S'), bounds(Some(1), None));
    assert_eq!(state.possible_solutions(), &words(&["ERASE"]));
}

#[test]
fn upper_bound_counts_only_what_precedes_the_first_absent() {
    let dictionary = words(&["ROATE"]);
    let solutions = words(&["SLATE", "PLATE", "ABATE"]);
    let mut state = GameState::new(&dictionary, &solutions);
    let outcome = evaluate_guess("ABATE", "SLATE");
    assert_eq!(outcome, GuessOutcome::parse("ABATE", "BBGGG"));
    state.update(outcome);
    // The first A is absent before the second is found correct: the upper
    // bound is lowered to zero and the lower bound raised to one.
    assert_eq!(state.letter_frequency('A'), bounds(Some(1), Some(0)));
    assert!(state.is_exhausted());
    assert_eq!(state.possible_solutions(), &words(&[]));
}

#[test]
fn candidates_never_grow() {
    let dictionary = words(&["ROATE", "STEAL", "CLIPS"]);
    let solutions = words(&[
        "ABATE", "BEATS", "CRATE", "SLATE", "GRATE", "IRATE", "PLATE", "SKATE", "STATE", "ELATE",
        "ABASE", "ABBEY",
    ]);
    let mut state = GameState::new(&dictionary, &solutions);
    assert_eq!(state.possible_solutions().len(), 12);
    state.update(evaluate_guess("ROATE", "PLATE"));
    assert_eq!(
        state.possible_solutions(),
        &words(&["ABATE", "SLATE", "PLATE", "SKATE", "STATE", "ELATE"])
    );
    state.update(evaluate_guess("CLIPS", "PLATE"));
    assert_eq!(state.possible_solutions(), &words(&["PLATE"]));
    state.update(evaluate_guess("STEAL", "PLATE"));
    assert_eq!(state.possible_solutions(), &words(&["PLATE"]));
}

#[test]
fn bounds_never_loosen_across_updates() {
    let dictionary = words(&["ROATE"]);
    let solutions = words(&["ERASE"]);
    let mut state = GameState::new(&dictionary, &solutions);
    let mut earlier: Vec<FrequencyPredicate> =
        ('A'..='Z').map(|letter| state.letter_frequency(letter)).collect();
    for guess in ["SPEED", "TEARS", "EERIE", "LEVEE", "ERASE", "ROATE"] {
        let outcome = evaluate_guess(guess, "ERASE");
        if !state.accepts(&outcome) {
            continue;
        }
        state.update(outcome);
        for (k, letter) in ('A'..='Z').enumerate() {
            let now = state.letter_frequency(letter);
            if let Some(before) = earlier[k].min_occurrences {
                assert!(now.min_occurrences.unwrap() >= before);
            }
            if let Some(before) = earlier[k].max_occurrences {
                assert!(now.max_occurrences.unwrap() <= before);
            }
            earlier[k] = now;
        }
    }
}

#[test]
fn later_feedback_cannot_raise_an_upper_bound() {
    let dictionary = words(&["ROATE"]);
    let solutions = words(&["ERASE"]);
    let mut state = GameState::new(&dictionary, &solutions);
    state.update(GuessOutcome::parse("SPEED", "BBYBB"));
    assert_eq!(state.letter_frequency('E'), bounds(Some(1), Some(1)));
    // Feedback that speaks of two E: the lower bound rises, the upper one stays.
    state.update(GuessOutcome::parse("LEVEE", "BYBYB"));
    assert_eq!(state.letter_frequency('E'), bounds(Some(2), Some(1)));
    assert!(state.is_exhausted());
}

#[test]
fn word_fits_checks_positions_and_counts() {
    let dictionary = words(&["ROATE"]);
    let solutions = words(&["ABATE", "BEATS"]);
    let mut state = GameState::new(&dictionary, &solutions);
    state.update(GuessOutcome::parse("ROATE", "BBGGG"));
    assert!(state._word_fits("ABATE"));
    assert!(state._word_fits("SLATE"));
    assert!(!state._word_fits("BEATS"));
    assert!(!state._word_fits("CRATE"));
    assert!(!state._word_fits("OVATE"));
    assert!(!state._word_fits("abate"));
}

#[test]
fn word_fits_on_a_fresh_state() {
    let dictionary = words(&["ROATE"]);
    let solutions = words(&["ABATE"]);
    let state = GameState::new(&dictionary, &solutions);
    assert!(state._word_fits("ABATE"));
    assert!(state._word_fits("ZZZZZ"));
    assert!(state._word_fits("ABAT"));
    assert!(state._word_fits(""));
    assert!(!state._word_fits("ABATES"));
    assert!(!state._word_fits("abate"));
    assert!(!state._word_fits("AB TE"));
}

#[test]
fn word_fits_counts_letters_missing_from_the_word_as_zero() {
    let dictionary = words(&["ROATE"]);
    let solutions = words(&["ABATE"]);
    let mut state = GameState::new(&dictionary, &solutions);
    state.update(GuessOutcome::parse("QUICK", "BBBBY"));
    // K must occur at least once, though not at the end.
    assert!(!state._word_fits("ABATE"));
    assert!(state._word_fits("SKATE"));
    assert!(!state._word_fits("SLEEK"));
}

#[test]
fn update_state_alone_leaves_the_candidates() {
    let dictionary = words(&["ROATE"]);
    let solutions = words(&["ABATE", "BEATS"]);
    let mut state = GameState::new(&dictionary, &solutions);
    state._update_state(GuessOutcome::parse("ROATE", "BBGGG"));
    assert!(!state.is_initial_state());
    assert_eq!(state.possible_solutions(), &solutions);
    assert!(!state._word_fits("BEATS"));
    state._update_potential_solutions();
    assert_eq!(state.possible_solutions(), &words(&["ABATE"]));
    state._update_potential_solutions();
    assert_eq!(state.possible_solutions(), &words(&["ABATE"]));
}

#[test]
fn accepts_feedback_that_can_be_taken_in() {
    let dictionary = words(&["ROATE"]);
    let solutions = words(&["ABATE", "BEATS"]);
    let mut state = GameState::new(&dictionary, &solutions);
    assert!(state.accepts(&GuessOutcome::parse("ROATE", "GGGGG")));
    assert!(state.accepts(&GuessOutcome::parse("ROATE", "BY")));
    state.update(GuessOutcome::parse("ROATE", "BBGGG"));
    assert!(state.accepts(&GuessOutcome::parse("ABATE", "GGGGG")));
    assert!(state.accepts(&GuessOutcome::parse("ROATE", "YYGGG")));
}

#[test]
fn refuses_feedback_that_contradicts_the_state() {
    let dictionary = words(&["ROATE"]);
    let solutions = words(&["ABATE", "BEATS"]);
    let mut state = GameState::new(&dictionary, &solutions);
    state.update(GuessOutcome::parse("ROATE", "BBGGG"));
    // R was ruled out at the first position, and the third holds an A.
    assert!(!state.accepts(&GuessOutcome::parse("ROATE", "GBGGG")));
    assert!(!state.accepts(&GuessOutcome::parse("BEECH", "BBGBB")));
}

#[test]
fn refuses_feedback_that_is_malformed() {
    let dictionary = words(&["ROATE"]);
    let solutions = words(&["ABATE"]);
    let state = GameState::new(&dictionary, &solutions);
    assert!(!state.accepts(&GuessOutcome::parse("roate", "BBBBB")));
    assert!(!state.accepts(&GuessOutcome::parse("RO-TE", "BBBBB")));
    let too_long = GuessOutcome { letters: vec![('A', LetterOutcome::Absent); 6] };
    assert!(!state.accepts(&too_long));
}

#[test]
fn information_gain_counts_pairs_told_apart() {
    let dictionary = words(&["ROATE"]);
    let solutions = words(&["ABATE"]);
    let state = GameState::new(&dictionary, &solutions);
    let two = words(&["ABATE", "BEATS"]);
    assert_eq!(state.calculate_information_gain("ROATE", &two), 2);
    assert_eq!(state.calculate_information_gain("QUICK", &two), 0);
    let three = words(&["ABATE", "BEATS", "ABASE"]);
    // Three groups of one: each of the three candidates is told apart from two.
    assert_eq!(state.calculate_information_gain("ROATE", &three), 6);
    assert_eq!(state.calculate_information_gain("ABATE", &three), 6);
    // A group of two and a group of one.
    assert_eq!(state.calculate_information_gain("ZZZZE", &three), 4);
    assert_eq!(state.calculate_information_gain("QUICK", &three), 0);
}

#[test]
fn information_gain_without_candidates_is_zero() {
    let dictionary = words(&["ROATE"]);
    let solutions = words(&["ABATE"]);
    let state = GameState::new(&dictionary, &solutions);
    assert_eq!(state.calculate_information_gain("ROATE", &words(&[])), 0);
    assert_eq!(state.calculate_information_gain("ROATE", &words(&["ABATE"])), 0);
}

#[test]
fn best_guess_has_the_greatest_gain() {
    let dictionary = words(&["QUICK", "ZZZZE", "ABATE", "ROATE"]);
    let solutions = words(&["ABATE", "BEATS", "ABASE"]);
    let mut state = GameState::new(&dictionary, &solutions);
    state.update(GuessOutcome::parse("QUICK", "BBBBB"));
    assert_eq!(state.possible_solutions(), &solutions);
    assert_eq!(state.calculate_best_guess(), "ABATE");
}

#[test]
fn best_guess_breaks_ties_by_dictionary_order() {
    let solutions = words(&["ABATE", "BEATS", "ABASE"]);
    let dictionary = words(&["ROATE", "ABATE", "BEATS"]);
    let mut state = GameState::new(&dictionary, &solutions);
    state.update(GuessOutcome::parse("QUICK", "BBBBB"));
    assert_eq!(state.calculate_best_guess(), "ROATE");
    let reordered = words(&["BEATS", "ABATE", "ROATE"]);
    let mut state = GameState::new(&reordered, &solutions);
    state.update(GuessOutcome::parse("QUICK", "BBBBB"));
    assert_eq!(state.calculate_best_guess(), "BEATS");
}

#[test]
fn best_guess_need_not_be_a_candidate() {
    let dictionary = words(&["ZZZZE", "QUICK"]);
    let solutions = words(&["ABATE", "BEATS", "ABASE"]);
    let mut state = GameState::new(&dictionary, &solutions);
    state.update(GuessOutcome::parse("QUICK", "BBBBB"));
    assert_eq!(state.calculate_best_guess(), "ZZZZE");
}

#[test]
fn best_guess_without_candidates_is_the_first_word() {
    let dictionary = words(&["QUICK", "ROATE"]);
    let solutions = words(&["QUICK"]);
    let mut state = GameState::new(&dictionary, &solutions);
    state.update(GuessOutcome::parse("QUICK", "BBBBB"));
    assert!(state.is_exhausted());
    assert_eq!(state.calculate_best_guess(), "QUICK");
}

#[test]
fn summary_gives_count_and_candidates() {
    let dictionary = words(&["ROATE"]);
    let solutions = words(&["ABATE", "BEATS"]);
    let mut state = GameState::new(&dictionary, &solutions);
    assert_eq!(state._possible_solutions_summary(), "ABATE, BEATS");
    assert_eq!(state.summary(), "2 possible solutions: [ABATE, BEATS]");
    state.update(GuessOutcome::parse("ROATE", "BBGGG"));
    assert_eq!(state.summary(), "1 possible solutions: [ABATE]");
    state.update(GuessOutcome::parse("QUICK", "GBBBB"));
    assert_eq!(state._possible_solutions_summary(), "");
    assert_eq!(state.summary(), "0 possible solutions: []");
}

#[test]
fn summary_with_a_count_of_two_digits() {
    let dictionary = words(&["ROATE"]);
    let solutions = words(&[
        "ABATE", "BEATS", "CRATE", "SLATE", "GRATE", "IRATE", "PLATE", "SKATE", "STATE", "ELATE",
        "ABASE", "ABBEY",
    ]);
    let state = GameState::new(&dictionary, &solutions);
    assert_eq!(
        state.summary(),
        "12 possible solutions: [ABATE, BEATS, CRATE, SLATE, GRATE, IRATE, PLATE, SKATE, STATE, \
         ELATE, ABASE, ABBEY]"
    );
}

#[test]
fn turn_with_winning_feedback_leaves_the_state() {
    let dictionary = words(&["ROATE"]);
    let solutions = words(&["ROATE", "ABATE"]);
    let mut state = GameState::new(&dictionary, &solutions);
    assert_eq!(state.take_turn(evaluate_guess("ROATE", "ROATE")), Progress::Won);
    assert!(state.is_initial_state());
    assert_eq!(state.possible_solutions(), &solutions);
}

#[test]
fn turn_that_narrows() {
    let dictionary = words(&["ROATE"]);
    let solutions = words(&["ABATE", "BEATS", "SLATE"]);
    let mut state = GameState::new(&dictionary, &solutions);
    assert_eq!(state.take_turn(evaluate_guess("ROATE", "ABATE")), Progress::Narrowed);
    assert!(!state.is_initial_state());
    assert_eq!(state.possible_solutions(), &words(&["ABATE", "SLATE"]));
}

#[test]
fn turn_that_exhausts() {
    let dictionary = words(&["ROATE"]);
    let solutions = words(&["ABATE", "BEATS"]);
    let mut state = GameState::new(&dictionary, &solutions);
    assert_eq!(state.take_turn(GuessOutcome::parse("QUICK", "YBBBB")), Progress::Exhausted);
    assert!(state.is_exhausted());
    assert!(!state.is_initial_state());
}

#[test]
fn turn_with_rejected_feedback_leaves_the_state() {
    let dictionary = words(&["ROATE"]);
    let solutions = words(&["ABATE", "BEATS"]);
    let mut state = GameState::new(&dictionary, &solutions);
    assert_eq!(state.take_turn(GuessOutcome::parse("ROATE", "BBGGG")), Progress::Narrowed);
    let before = state.letter_frequency('R');
    assert_eq!(state.take_turn(GuessOutcome::parse("RATIO", "GBBBB")), Progress::Rejected);
    assert_eq!(state.possible_solutions(), &words(&["ABATE"]));
    assert_eq!(state.letter_frequency('R'), before);
    assert!(state.is_possible_letter(1, 'A'));
    assert_eq!(state.take_turn(GuessOutcome::parse("roate", "BBBBB")), Progress::Rejected);
    assert_eq!(state.possible_solutions(), &words(&["ABATE"]));
}

#[test]
fn a_guess_of_distinct_letters_keeps_the_solution() {
    let dictionary = words(&["ROATE"]);
    let solutions = words(&["ABATE", "SLATE", "ERASE", "LABEL", "MAMMA"]);
    for solution in ["ABATE", "SLATE", "ERASE", "LABEL", "MAMMA"] {
        let mut state = GameState::new(&dictionary, &solutions);
        for guess in ["ROATE", "CLIPS", "BLAME", "TEARS", "MOUND"] {
            let outcome = evaluate_guess(guess, solution);
            assert!(state.accepts(&outcome));
            state.update(outcome);
            assert!(state.possible_solutions().iter().any(|word| word == solution));
        }
    }
}

#[test]
fn try_new_starts_a_game_on_valid_lists() {
    let dictionary = words(&["ROATE", "ABATE"]);
    let solutions = words(&["ABATE", "BEATS"]);
    let state = GameState::try_new(&dictionary, &solutions).unwrap();
    assert!(state.is_initial_state());
    assert_eq!(state.possible_solutions(), &solutions);
    assert_eq!(state.calculate_best_guess(), "ROATE");
    let no_solutions = words(&[]);
    assert!(GameState::try_new(&dictionary, &no_solutions).unwrap().is_exhausted());
}

#[test]
fn try_new_refuses_invalid_lists() {
    let good = words(&["ROATE", "ABATE"]);
    let empty = words(&[]);
    assert!(GameState::try_new(&empty, &good).is_none());
    assert!(GameState::try_new(&words(&["ROATE", "abate"]), &good).is_none());
    assert!(GameState::try_new(&words(&["ROATE", "ABATES"]), &good).is_none());
    assert!(GameState::try_new(&good, &words(&["ABATE", "BEAT"])).is_none());
    assert!(GameState::try_new(&good, &words(&["ABATE", "BE-TS"])).is_none());
}

#[test]
fn candidates_are_the_solutions_that_fit() {
    let dictionary = words(&["ROATE"]);
    let solutions = words(&[
        "ABATE", "BEATS", "CRATE", "SLATE", "GRATE", "IRATE", "PLATE", "SKATE", "STATE", "ELATE",
        "ABASE", "ABBEY",
    ]);
    let mut state = GameState::new(&dictionary, &solutions);
    for guess in ["ROATE", "CLIPS", "BLAME", "MOUND"] {
        let fitting: Vec<String> =
            solutions.iter().filter(|word| state._word_fits(word)).cloned().collect();
        assert_eq!(state.possible_solutions(), &fitting);
        state.update(evaluate_guess(guess, "PLATE"));
    }
    let fitting: Vec<String> =
        solutions.iter().filter(|word| state._word_fits(word)).cloned().collect();
    assert_eq!(state.possible_solutions(), &fitting);
    assert_eq!(fitting, words(&["PLATE"]));
}

#[test]
fn every_position_keeps_a_letter_while_candidates_are_left() {
    let dictionary = words(&["ROATE"]);
    let solutions = words(&["ABATE", "SLATE", "PLATE"]);
    let mut state = GameState::new(&dictionary, &solutions);
    for guess in ["ROATE", "CLIPS", "MOUND", "BLAZE"] {
        state.update(evaluate_guess(guess, "PLATE"));
        assert!(!state.is_exhausted());
        for position in 0..5 {
            assert!(('A'..='Z').any(|letter| state.is_possible_letter(position, letter)));
        }
    }
}
