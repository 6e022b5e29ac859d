use wordle_solver::alphabet::{index_of_letter, is_letter_char};
use wordle_solver::selector::{
    best_guess_index, letters_of_list, pattern_index_of, scaled_gain_of, NUM_PATTERNS,
};
use wordle_solver::text::{comma_separated, decimal_string};
use wordle_solver::LetterOutcome::{Absent, Correct, Present};
use wordle_solver::{is_valid_word, is_valid_word_list, LetterSet, WORD_LENGTH};

fn words(list: &[&str]) -> Vec<String> {
    list.iter().map(|word| word.to_string()).collect()
}

#[test]
fn word_length_is_five() {
    assert_eq!(WORD_LENGTH, 5);
    assert_eq!(NUM_PATTERNS, 243);
}

#[test]
fn letters_are_upper_case_a_to_z() {
    assert!(is_letter_char('A'));
    assert!(is_letter_char('M'));
    assert!(is_letter_char('Z'));
    assert!(!is_letter_char('a'));
    assert!(!is_letter_char('z'));
    assert!(!is_letter_char('@'));
    assert!(!is_letter_char('['));
    assert!(!is_letter_char('5'));
    assert!(!is_letter_char('\u{c9}'));
}

#[test]
fn letter_indices() {
    assert_eq!(index_of_letter('A'), 0);
    assert_eq!(index_of_letter('B'), 1);
    assert_eq!(index_of_letter('Z'), 25);
}

#[test]
fn words_have_five_letters() {
    assert!(is_valid_word("ABATE"));
    assert!(is_valid_word("ZZZZZ"));
    assert!(!is_valid_word(""));
    assert!(!is_valid_word("ABAT"));
    assert!(!is_valid_word("ABATES"));
    assert!(!is_valid_word("abate"));
    assert!(!is_valid_word("ABAtE"));
    assert!(!is_valid_word("AB TE"));
    assert!(!is_valid_word("\u{c9}BATE"));
}

#[test]
fn word_lists() {
    assert!(is_valid_word_list(&words(&[])));
    assert!(is_valid_word_list(&words(&["ABATE", "BEATS"])));
    assert!(!is_valid_word_list(&words(&["ABATE", "beats"])));
    assert!(!is_valid_word_list(&words(&["ABATE", "BEAT", "CRATE"])));
}

#[test]
fn full_letter_set_holds_the_alphabet() {
    let set = LetterSet::full();
    for letter in 'A'..='Z' {
        assert!(set.contains(letter));
    }
    assert!(!set.contains('a'));
    assert!(!set.contains('@'));
    assert!(!set.contains('['));
}

#[test]
fn removing_a_letter_leaves_the_others() {
    let mut set = LetterSet::full();
    set.remove('Q');
    set.remove('A');
    set.remove('Z');
    set.remove('Q');
    set.remove('q');
    for letter in 'A'..='Z' {
        assert_eq!(set.contains(letter), letter != 'Q' && letter != 'A' && letter != 'Z');
    }
}

#[test]
fn singleton_letter_set() {
    for only in ['A', 'K', 'Z'] {
        let set = LetterSet::only(only);
        for letter in 'A'..='Z' {
            assert_eq!(set.contains(letter), letter == only);
        }
    }
    let mut set = LetterSet::only('K');
    set.remove('K');
    for letter in 'A'..='Z' {
        assert!(!set.contains(letter));
    }
}

#[test]
fn pattern_numbers() {
    assert_eq!(pattern_index_of(&vec![]), 0);
    assert_eq!(pattern_index_of(&vec![Correct; 5]), 0);
    assert_eq!(pattern_index_of(&vec![Absent; 5]), 242);
    assert_eq!(pattern_index_of(&vec![Present]), 1);
    assert_eq!(pattern_index_of(&vec![Correct, Present, Absent]), 5);
    assert_eq!(pattern_index_of(&vec![Present, Correct, Correct, Correct, Correct]), 81);
    assert_eq!(pattern_index_of(&vec![Absent, Absent, Correct, Correct, Present]), 217);
}

#[test]
fn scaled_gain_on_letters() {
    let candidates = letters_of_list(&words(&["ABATE", "BEATS", "ABASE"]));
    assert_eq!(candidates[1], vec!['B', 'E', 'A', 'T', 'S']);
    assert_eq!(scaled_gain_of(&vec!['R', 'O', 'A', 'T', 'E'], &candidates), 6);
    assert_eq!(scaled_gain_of(&vec!['Z', 'Z', 'Z', 'Z', 'E'], &candidates), 4);
    assert_eq!(scaled_gain_of(&vec!['Q', 'U', 'I', 'C', 'K'], &candidates), 0);
    assert_eq!(scaled_gain_of(&vec![], &candidates), 0);
}

#[test]
fn scaled_gain_of_four_candidates() {
    // Patterns of ABATE: all correct once, and three more that differ from each other.
    let candidates = letters_of_list(&words(&["ABATE", "BEATS", "ABASE", "ABBEY"]));
    assert_eq!(scaled_gain_of(&vec!['A', 'B', 'A', 'T', 'E'], &candidates), 12);
    // The last letter splits them two and two.
    assert_eq!(scaled_gain_of(&vec!['Z', 'Z', 'Z', 'Z', 'E'], &candidates), 8);
}

#[test]
fn first_best_entry() {
    let candidates = letters_of_list(&words(&["ABATE", "BEATS", "ABASE"]));
    assert_eq!(best_guess_index(&words(&["QUICK", "ZZZZE", "ROATE", "ABATE"]), &candidates), 2);
    assert_eq!(best_guess_index(&words(&["QUICK", "MOUND"]), &candidates), 0);
    assert_eq!(best_guess_index(&words(&["QUICK", "ZZZZE", "MOUND"]), &candidates), 1);
    assert_eq!(best_guess_index(&words(&["ROATE"]), &candidates), 0);
}

#[test]
fn decimal_numbers() {
    assert_eq!(decimal_string(0), "0");
    assert_eq!(decimal_string(7), "7");
    assert_eq!(decimal_string(9), "9");
    assert_eq!(decimal_string(10), "10");
    assert_eq!(decimal_string(2315), "2315");
    assert_eq!(decimal_string(1234567890), "1234567890");
    assert_eq!(decimal_string(usize::MAX), usize::MAX.to_string());
}

#[test]
fn comma_separated_lists() {
    assert_eq!(comma_separated(&words(&[])), "");
    assert_eq!(comma_separated(&words(&["ABATE"])), "ABATE");
    assert_eq!(comma_separated(&words(&["ABATE", "BEATS", "CRATE"])), "ABATE, BEATS, CRATE");
}
