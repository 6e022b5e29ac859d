use wordle_solver::alphabet::chars_of;
use wordle_solver::evaluate::classify;
use wordle_solver::{evaluate_guess, GuessOutcome, LetterOutcome};

use wordle_solver::LetterOutcome::{Absent, Correct, Present};

fn pattern(guess: &str, solution: &str) -> Vec<LetterOutcome> {
    evaluate_guess(guess, solution).letter_outcomes()
}

fn letters(outcome: &GuessOutcome) -> String {
    outcome.letters.iter().map(|entry| entry.0).collect()
}

#[test]
fn roate_against_abate() {
    let outcome = evaluate_guess("ROATE", "ABATE");
    assert_eq!(
        outcome.letters,
        vec![('R', Absent), ('O', Absent), ('A', Correct), ('T', Correct), ('E', Correct)]
    );
}

#[test]
fn roate_against_beats() {
    assert_eq!(pattern("ROATE", "BEATS"), vec![Absent, Absent, Correct, Correct, Present]);
}

#[test]
fn outcome_keeps_the_letters_of_the_guess() {
    assert_eq!(letters(&evaluate_guess("SPEED", "ABIDE")), "SPEED");
    assert_eq!(letters(&evaluate_guess("ROATE", "BEATS")), "ROATE");
}

#[test]
fn no_common_letters_is_all_absent() {
    assert_eq!(pattern("QUICK", "ABATE"), vec![Absent; 5]);
}

#[test]
fn misplaced_letters_are_present() {
    assert_eq!(pattern("BEATS", "ABATE"), vec![Present, Present, Correct, Correct, Absent]);
    assert_eq!(pattern("TEARS", "STARE"), vec![Present, Present, Correct, Correct, Present]);
}

#[test]
fn repeated_letter_with_one_spare_occurrence() {
    // One E of the solution is left for the two of the guess: the left one gets it.
    assert_eq!(pattern("SPEED", "ABIDE"), vec![Absent, Absent, Present, Absent, Present]);
}

#[test]
fn repeated_letter_with_two_spare_occurrences() {
    assert_eq!(pattern("SPEED", "ERASE"), vec![Present, Absent, Present, Present, Absent]);
}

#[test]
fn repeated_letter_with_exact_match_first() {
    // The only E of the solution is matched exactly; the other E of the guess is absent.
    assert_eq!(pattern("SPEED", "STEAL"), vec![Correct, Absent, Correct, Absent, Absent]);
}

#[test]
fn repeated_letter_exact_and_present() {
    assert_eq!(pattern("SPEED", "CREPE"), vec![Absent, Present, Correct, Present, Absent]);
}

#[test]
fn exact_match_is_counted_before_earlier_letters() {
    // The E at the end is an exact match, so the two E in front find none left.
    assert_eq!(pattern("EERIE", "ABATE"), vec![Absent, Absent, Absent, Absent, Correct]);
}

#[test]
fn earlier_guess_letter_claims_the_spare_occurrence() {
    assert_eq!(pattern("ALLOY", "LABEL"), vec![Present, Present, Present, Absent, Absent]);
    assert_eq!(pattern("LLAMA", "LABEL"), vec![Correct, Present, Present, Absent, Absent]);
}

fn count_letter(word: &str, letter: char) -> usize {
    word.chars().filter(|c| *c == letter).count()
}

fn check_duplicate_letter_law(guess: &str, solution: &str) {
    let outcome = evaluate_guess(guess, solution);
    for letter in 'A'..='Z' {
        let in_guess = count_letter(guess, letter);
        let in_solution = count_letter(solution, letter);
        let non_absent =
            outcome.letters.iter().filter(|entry| entry.0 == letter && entry.1 != Absent).count();
        let absent =
            outcome.letters.iter().filter(|entry| entry.0 == letter && entry.1 == Absent).count();
        assert_eq!(non_absent, in_guess.min(in_solution), "{} in {}/{}", letter, guess, solution);
        assert_eq!(absent, in_guess - in_guess.min(in_solution));
    }
    for (i, entry) in outcome.letters.iter().enumerate() {
        let exact = guess.chars().nth(i) == solution.chars().nth(i);
        assert_eq!(entry.1 == Correct, exact);
    }
}

#[test]
fn duplicate_letter_law_on_examples() {
    let words = [
        "ABATE", "BEATS", "SPEED", "ERASE", "EERIE", "LLAMA", "LABEL", "ALLOY", "STEAL", "CREPE",
        "MAMMA", "EMMER", "AAAAA", "ABABA", "BABAB",
    ];
    for guess in words {
        for solution in words {
            check_duplicate_letter_law(guess, solution);
        }
    }
}

#[test]
fn three_copies_against_one() {
    // Three E in the guess, one in the solution: one is not absent, two are.
    let outcome = evaluate_guess("EERIE", "ABATE");
    let marked: Vec<LetterOutcome> =
        outcome.letters.iter().filter(|entry| entry.0 == 'E').map(|entry| entry.1).collect();
    assert_eq!(marked, vec![Absent, Absent, Correct]);
}

#[test]
fn guessing_the_solution_wins() {
    for word in ["ABATE", "BEATS", "ROATE", "EERIE", "AAAAA", "MAMMA"] {
        let outcome = evaluate_guess(word, word);
        assert_eq!(outcome.letter_outcomes(), vec![Correct; 5]);
        assert!(outcome.is_win());
    }
}

#[test]
fn a_different_word_does_not_win() {
    assert!(!evaluate_guess("ROATE", "ABATE").is_win());
    assert!(!evaluate_guess("ABATE", "ABASE").is_win());
}

#[test]
fn words_of_different_lengths() {
    assert_eq!(pattern("ABC", "ABXCY"), vec![Correct, Correct, Present]);
    assert_eq!(pattern("ABCDE", "EA"), vec![Present, Absent, Absent, Absent, Present]);
    assert_eq!(pattern("", "ABATE"), vec![]);
    assert_eq!(pattern("AB", ""), vec![Absent, Absent]);
}

#[test]
fn chars_of_gives_the_characters() {
    assert_eq!(chars_of("ROATE"), vec!['R', 'O', 'A', 'T', 'E']);
    assert_eq!(chars_of(""), Vec::<char>::new());
}

#[test]
fn classify_on_vectors() {
    let guess = vec!['S', 'P', 'E', 'E', 'D'];
    let solution = vec!['A', 'B', 'I', 'D', 'E'];
    assert_eq!(classify(&guess, &solution), vec![Absent, Absent, Present, Absent, Present]);
}
