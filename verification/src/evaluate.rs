//! The evaluator: classifies every letter of a guess against a solution.
//!
//! A letter of the guess is `Correct` where the solution holds the same
//! letter at the same position. Each remaining letter of the guess claims,
//! from left to right, one occurrence of that letter in the solution that no
//! other letter of the guess has claimed; it is `Present` if one is left and
//! `Absent` otherwise.

use vstd::prelude::*;
use crate::alphabet::{chars_of, letter_count, letter_count_upto};
use crate::outcome::{
    absent_count, absent_upto, is_winning, non_absent_count, non_absent_upto, signature_of,
    GuessOutcome, LetterOutcome,
};

verus! {

/// Guess and solution hold the same letter at position `i`.
pub open spec fn is_exact(guess: Seq<char>, solution: Seq<char>, i: int) -> bool {
    0 <= i < guess.len() && i < solution.len() && guess[i] == solution[i]
}

/// Number of positions among the first `n` at which both words hold `c`.
pub open spec fn exact_upto(guess: Seq<char>, solution: Seq<char>, c: char, n: int) -> nat
    decreases n,
{
    if n <= 0 {
        0
    } else {
        exact_upto(guess, solution, c, n - 1) + if is_exact(guess, solution, n - 1) && guess[n
            - 1] == c {
            1nat
        } else {
            0nat
        }
    }
}

/// Number of positions among the first `n` of the solution that hold `c`
/// while the guess holds something else there.
pub open spec fn spare_upto(guess: Seq<char>, solution: Seq<char>, c: char, n: int) -> nat
    decreases n,
{
    if n <= 0 {
        0
    } else {
        spare_upto(guess, solution, c, n - 1) + if solution[n - 1] == c && !is_exact(
            guess,
            solution,
            n - 1,
        ) {
            1nat
        } else {
            0nat
        }
    }
}

/// Number of occurrences of `c` in the solution that no exact match uses up.
pub open spec fn spare_count(guess: Seq<char>, solution: Seq<char>, c: char) -> nat {
    spare_upto(guess, solution, c, solution.len() as int)
}

/// Number of positions among the first `n` of the guess that hold `c` while
/// the solution holds something else there.
pub open spec fn misplaced_upto(guess: Seq<char>, solution: Seq<char>, c: char, n: int) -> nat
    decreases n,
{
    if n <= 0 {
        0
    } else {
        misplaced_upto(guess, solution, c, n - 1) + if guess[n - 1] == c && !is_exact(
            guess,
            solution,
            n - 1,
        ) {
            1nat
        } else {
            0nat
        }
    }
}

/// The classification of the letter at position `i` of the guess.
///
/// An exact match is `Correct`. Any other letter is `Present` as long as the
/// earlier misplaced occurrences of the same letter in the guess have not
/// used up the spare occurrences in the solution, and `Absent` after that.
pub open spec fn outcome_at(guess: Seq<char>, solution: Seq<char>, i: int) -> LetterOutcome {
    if is_exact(guess, solution, i) {
        LetterOutcome::Correct
    } else if misplaced_upto(guess, solution, guess[i], i) < spare_count(
        guess,
        solution,
        guess[i],
    ) {
        LetterOutcome::Present
    } else {
        LetterOutcome::Absent
    }
}

/// The feedback for `guess` when the solution is `solution`.
pub open spec fn evaluation(guess: Seq<char>, solution: Seq<char>) -> Seq<(char, LetterOutcome)> {
    Seq::new(guess.len(), |i: int| (guess[i], outcome_at(guess, solution, i)))
}

/// The smaller of two numbers.
pub open spec fn min_nat(a: nat, b: nat) -> nat {
    if a <= b {
        a
    } else {
        b
    }
}

/// Number of spare occurrences of `c` in the solution that the first `i`
/// letters of the guess have claimed.
spec fn claimed(guess: Seq<char>, solution: Seq<char>, c: char, i: int) -> nat {
    min_nat(misplaced_upto(guess, solution, c, i), spare_count(guess, solution, c))
}

/// Position `p` of the solution is used up once the first `i` letters of the
/// guess are classified: by an exact match, or because it is among the spare
/// occurrences of its letter claimed so far, which are claimed left to right.
spec fn is_used(guess: Seq<char>, solution: Seq<char>, p: int, i: int) -> bool {
    is_exact(guess, solution, p) || spare_upto(guess, solution, solution[p], p) < claimed(
        guess,
        solution,
        solution[p],
        i,
    )
}

proof fn lemma_spare_monotone(guess: Seq<char>, solution: Seq<char>, c: char, a: int, b: int)
    requires
        a <= b,
    ensures
        spare_upto(guess, solution, c, a) <= spare_upto(guess, solution, c, b),
    decreases b - a,
{
    if a < b {
        lemma_spare_monotone(guess, solution, c, a, b - 1);
    }
}

/// Among the first `n` positions of the solution, the spare occurrences of
/// `c` are numbered without gaps: each number below their count is taken.
proof fn lemma_spare_rank_exists(
    guess: Seq<char>,
    solution: Seq<char>,
    c: char,
    n: int,
    k: nat,
) -> (q: int)
    requires
        k < spare_upto(guess, solution, c, n),
    ensures
        0 <= q < n,
        solution[q] == c,
        !is_exact(guess, solution, q),
        spare_upto(guess, solution, c, q) == k,
    decreases n,
{
    if solution[n - 1] == c && !is_exact(guess, solution, n - 1) && spare_upto(
        guess,
        solution,
        c,
        n - 1,
    ) == k {
        n - 1
    } else {
        lemma_spare_rank_exists(guess, solution, c, n - 1, k)
    }
}

/// Classifying an exact match claims no spare occurrence.
proof fn lemma_step_exact(guess: Seq<char>, solution: Seq<char>, i: int, q: int)
    requires
        is_exact(guess, solution, i),
    ensures
        is_used(guess, solution, q, i + 1) == is_used(guess, solution, q, i),
{
}

/// A misplaced letter that finds an unused occurrence, the leftmost one at
/// `p`, is `Present`, and `p` is the one position used up by it.
proof fn lemma_step_found(
    guess: Seq<char>,
    solution: Seq<char>,
    used: Seq<bool>,
    i: int,
    p: int,
)
    requires
        0 <= i < guess.len(),
        !is_exact(guess, solution, i),
        used.len() == solution.len(),
        forall|q: int|
            0 <= q < solution.len() ==> used[q] == #[trigger] is_used(guess, solution, q, i),
        0 <= p < solution.len(),
        solution[p] == guess[i],
        !used[p],
        forall|q: int| 0 <= q < p ==> used[q] || solution[q] != guess[i],
    ensures
        outcome_at(guess, solution, i) == LetterOutcome::Present,
        forall|q: int|
            0 <= q < solution.len() ==> used.update(p, true)[q] == #[trigger] is_used(
                guess,
                solution,
                q,
                i + 1,
            ),
{
    let c = guess[i];
    let taken = misplaced_upto(guess, solution, c, i);
    let spare = spare_count(guess, solution, c);
    let rank = spare_upto(guess, solution, c, p);
    assert(!is_used(guess, solution, p, i));
    assert(rank >= claimed(guess, solution, c, i));
    assert(spare_upto(guess, solution, c, p + 1) == rank + 1);
    lemma_spare_monotone(guess, solution, c, p + 1, solution.len() as int);
    assert(rank < spare);
    if rank > taken {
        let q = lemma_spare_rank_exists(guess, solution, c, p, taken);
        assert(is_used(guess, solution, q, i));
    }
    assert(rank == taken);
    assert(misplaced_upto(guess, solution, c, i + 1) == taken + 1);
    assert(claimed(guess, solution, c, i + 1) == taken + 1);
    assert forall|q: int| 0 <= q < solution.len() implies used.update(p, true)[q]
        == #[trigger] is_used(guess, solution, q, i + 1) by {
        let d = solution[q];
        assert(used[q] == is_used(guess, solution, q, i));
        if q == p {
            assert(is_used(guess, solution, p, i + 1));
        } else if d != c {
            assert(misplaced_upto(guess, solution, d, i + 1) == misplaced_upto(
                guess,
                solution,
                d,
                i,
            ));
            assert(claimed(guess, solution, d, i + 1) == claimed(guess, solution, d, i));
        } else if is_exact(guess, solution, q) {
        } else {
            if q < p {
                assert(spare_upto(guess, solution, c, q + 1) == spare_upto(guess, solution, c, q)
                    + 1);
                lemma_spare_monotone(guess, solution, c, q + 1, p);
            } else {
                lemma_spare_monotone(guess, solution, c, p + 1, q);
            }
            assert(spare_upto(guess, solution, c, q) != taken);
            assert(claimed(guess, solution, c, i) == taken);
        }
    }
}

/// A misplaced letter that finds no unused occurrence is `Absent` and uses
/// up nothing.
proof fn lemma_step_none(guess: Seq<char>, solution: Seq<char>, used: Seq<bool>, i: int)
    requires
        0 <= i < guess.len(),
        !is_exact(guess, solution, i),
        used.len() == solution.len(),
        forall|q: int|
            0 <= q < solution.len() ==> used[q] == #[trigger] is_used(guess, solution, q, i),
        forall|q: int| 0 <= q < solution.len() ==> used[q] || solution[q] != guess[i],
    ensures
        outcome_at(guess, solution, i) == LetterOutcome::Absent,
        forall|q: int|
            0 <= q < solution.len() ==> used[q] == #[trigger] is_used(guess, solution, q, i + 1),
{
    let c = guess[i];
    let taken = misplaced_upto(guess, solution, c, i);
    let spare = spare_count(guess, solution, c);
    if taken < spare {
        let q = lemma_spare_rank_exists(guess, solution, c, solution.len() as int, taken);
        assert(is_used(guess, solution, q, i));
    }
    assert(taken >= spare);
    assert(misplaced_upto(guess, solution, c, i + 1) == taken + 1);
    assert forall|q: int| 0 <= q < solution.len() implies used[q] == #[trigger] is_used(
        guess,
        solution,
        q,
        i + 1,
    ) by {
        let d = solution[q];
        if d != c {
            assert(misplaced_upto(guess, solution, d, i + 1) == misplaced_upto(
                guess,
                solution,
                d,
                i,
            ));
        }
        assert(is_used(guess, solution, q, i + 1) == is_used(guess, solution, q, i));
    }
}

/// Beyond the end of either word there are no exact matches to count.
proof fn lemma_exact_upto_saturates(guess: Seq<char>, solution: Seq<char>, c: char, n: int)
    requires
        guess.len() <= n || solution.len() <= n,
    ensures
        exact_upto(guess, solution, c, n) == exact_upto(
            guess,
            solution,
            c,
            min_nat(guess.len(), solution.len()) as int,
        ),
    decreases n,
{
    if n > min_nat(guess.len(), solution.len()) {
        lemma_exact_upto_saturates(guess, solution, c, n - 1);
    }
}

/// Every occurrence of `c` in the guess is an exact match or misplaced, and
/// every occurrence in the solution is an exact match or spare.
proof fn lemma_letter_count_split(guess: Seq<char>, solution: Seq<char>, c: char, n: int)
    ensures
        letter_count_upto(guess, c, n) == exact_upto(guess, solution, c, n) + misplaced_upto(
            guess,
            solution,
            c,
            n,
        ),
        n <= guess.len() ==> letter_count_upto(solution, c, n) == exact_upto(
            guess,
            solution,
            c,
            n,
        ) + spare_upto(guess, solution, c, n),
        n > guess.len() ==> letter_count_upto(solution, c, n) == exact_upto(
            guess,
            solution,
            c,
            guess.len() as int,
        ) + spare_upto(guess, solution, c, n),
    decreases n,
{
    if n > 0 {
        lemma_letter_count_split(guess, solution, c, n - 1);
        if n > guess.len() {
            lemma_exact_upto_saturates(guess, solution, c, n - 1);
            lemma_exact_upto_saturates(guess, solution, c, guess.len() as int);
        }
    }
}

/// Among the first `n` letters of the guess, the occurrences of `c` that are
/// not `Absent` are the exact matches and as many misplaced ones as the
/// solution has spare occurrences; the other misplaced ones are `Absent`.
proof fn lemma_outcome_counts_upto(guess: Seq<char>, solution: Seq<char>, c: char, n: int)
    requires
        0 <= n <= guess.len(),
    ensures
        non_absent_upto(evaluation(guess, solution), c, n) == exact_upto(guess, solution, c, n)
            + claimed(guess, solution, c, n),
        absent_upto(evaluation(guess, solution), c, n) == misplaced_upto(guess, solution, c, n)
            - claimed(guess, solution, c, n),
    decreases n,
{
    if n > 0 {
        lemma_outcome_counts_upto(guess, solution, c, n - 1);
    }
}

/// Duplicate-letter law. Of the occurrences of a letter in the guess, as
/// many are `Correct` or `Present` as the solution has occurrences of that
/// letter, or all of them if the guess has fewer; the others are `Absent`.
/// In particular a guess with more copies of a letter than the solution gets
/// exactly the solution's number of copies marked `Correct` or `Present`.
/// Exact matches come first: a letter is `Correct` exactly where the
/// solution holds it at the same position.
pub proof fn lemma_duplicate_letters(guess: Seq<char>, solution: Seq<char>, c: char)
    ensures
        non_absent_count(evaluation(guess, solution), c) == min_nat(
            letter_count(guess, c),
            letter_count(solution, c),
        ),
        non_absent_count(evaluation(guess, solution), c) + absent_count(
            evaluation(guess, solution),
            c,
        ) == letter_count(guess, c),
        letter_count(guess, c) > letter_count(solution, c) ==> {
            &&& non_absent_count(evaluation(guess, solution), c) == letter_count(solution, c)
            &&& absent_count(evaluation(guess, solution), c) == letter_count(guess, c)
                - letter_count(solution, c)
        },
        forall|i: int|
            0 <= i < guess.len() ==> (#[trigger] evaluation(guess, solution)[i].1
                == LetterOutcome::Correct <==> is_exact(guess, solution, i)),
{
    let g = guess.len() as int;
    let s = solution.len() as int;
    lemma_outcome_counts_upto(guess, solution, c, g);
    lemma_letter_count_split(guess, solution, c, g);
    lemma_letter_count_split(guess, solution, c, s);
    lemma_exact_upto_saturates(guess, solution, c, g);
    lemma_exact_upto_saturates(guess, solution, c, s);
}

/// Win detection: guessing the solution itself marks every letter `Correct`.
pub proof fn lemma_guessing_solution_wins(word: Seq<char>)
    ensures
        is_winning(evaluation(word, word)),
        forall|i: int|
            0 <= i < word.len() ==> #[trigger] evaluation(word, word)[i] == (
                word[i],
                LetterOutcome::Correct,
            ),
{
}

/// Finds the leftmost position of the solution that holds `c` and is not
/// used up.
fn first_unused(solution: &Vec<char>, used: &Vec<bool>, c: char) -> (found: Option<usize>)
    requires
        used@.len() == solution@.len(),
    ensures
        match found {
            Some(p) => p < solution@.len() && solution@[p as int] == c && !used@[p as int]
                && forall|q: int| 0 <= q < p ==> used@[q] || solution@[q] != c,
            None => forall|q: int| 0 <= q < solution@.len() ==> used@[q] || solution@[q] != c,
        },
{
    let mut p: usize = 0;
    while p < solution.len()
        invariant
            p <= solution@.len(),
            used@.len() == solution@.len(),
            forall|q: int| 0 <= q < p ==> used@[q] || solution@[q] != c,
        decreases solution@.len() - p,
    {
        if !used[p] && solution[p] == c {
            return Some(p);
        }
        p += 1;
    }
    None
}

/// Classifies the letters of `guess` against `solution` in two passes: exact
/// matches first, then every other letter from left to right.
pub fn classify(guess: &Vec<char>, solution: &Vec<char>) -> (results: Vec<LetterOutcome>)
    ensures
        results@ == signature_of(evaluation(guess@, solution@)),
        results@.len() == guess@.len(),
        forall|i: int|
            0 <= i < guess@.len() ==> results@[i] == outcome_at(guess@, solution@, i),
{
    let guess_len = guess.len();
    let solution_len = solution.len();
    let mut results: Vec<LetterOutcome> = Vec::new();
    let mut used: Vec<bool> = Vec::new();
    let mut i: usize = 0;
    while i < guess_len
        invariant
            i <= guess_len,
            results@.len() == i,
            forall|j: int| 0 <= j < i ==> results@[j] == LetterOutcome::Absent,
        decreases guess_len - i,
    {
        results.push(LetterOutcome::Absent);
        i += 1;
    }
    let mut p: usize = 0;
    while p < solution_len
        invariant
            p <= solution_len,
            used@.len() == p,
            forall|q: int| 0 <= q < p ==> !used@[q],
        decreases solution_len - p,
    {
        used.push(false);
        p += 1;
    }
    let common = if guess_len <= solution_len { guess_len } else { solution_len };
    i = 0;
    while i < common
        invariant
            i <= common,
            common <= guess_len,
            common <= solution_len,
            guess_len == guess@.len(),
            solution_len == solution@.len(),
            results@.len() == guess_len,
            used@.len() == solution_len,
            forall|j: int|
                0 <= j < i ==> results@[j] == if is_exact(guess@, solution@, j) {
                    LetterOutcome::Correct
                } else {
                    LetterOutcome::Absent
                },
            forall|j: int| i <= j < guess_len ==> results@[j] == LetterOutcome::Absent,
            forall|q: int| 0 <= q < i ==> used@[q] == is_exact(guess@, solution@, q),
            forall|q: int| i <= q < solution_len ==> !used@[q],
        decreases common - i,
    {
        if guess[i] == solution[i] {
            results.set(i, LetterOutcome::Correct);
            used.set(i, true);
        }
        i += 1;
    }
    i = 0;
    while i < guess_len
        invariant
            i <= guess_len,
            guess_len == guess@.len(),
            solution_len == solution@.len(),
            results@.len() == guess_len,
            used@.len() == solution_len,
            forall|j: int| 0 <= j < i ==> results@[j] == outcome_at(guess@, solution@, j),
            forall|j: int|
                i <= j < guess_len ==> results@[j] == if is_exact(guess@, solution@, j) {
                    LetterOutcome::Correct
                } else {
                    LetterOutcome::Absent
                },
            forall|q: int|
                0 <= q < solution_len ==> used@[q] == #[trigger] is_used(
                    guess@,
                    solution@,
                    q,
                    i as int,
                ),
        decreases guess_len - i,
    {
        if results[i] != LetterOutcome::Correct {
            match first_unused(solution, &used, guess[i]) {
                Some(p) => {
                    proof {
                        lemma_step_found(guess@, solution@, used@, i as int, p as int);
                    }
                    results.set(i, LetterOutcome::Present);
                    used.set(p, true);
                },
                None => {
                    proof {
                        lemma_step_none(guess@, solution@, used@, i as int);
                    }
                },
            }
        } else {
            proof {
                assert forall|q: int| 0 <= q < solution_len implies used@[q] == #[trigger] is_used(
                    guess@,
                    solution@,
                    q,
                    i + 1,
                ) by {
                    lemma_step_exact(guess@, solution@, i as int, q);
                }
            }
        }
        i += 1;
    }
    assert(results@ =~= signature_of(evaluation(guess@, solution@)));
    results
}

/// Evaluates a guess against a solution.
pub fn evaluate_guess(guess: &str, solution: &str) -> (outcome: GuessOutcome)
    ensures
        outcome@ == evaluation(guess@, solution@),
{
    let guess_chars = chars_of(guess);
    let solution_chars = chars_of(solution);
    let results = classify(&guess_chars, &solution_chars);
    let mut letters: Vec<(char, LetterOutcome)> = Vec::new();
    let mut i: usize = 0;
    while i < guess_chars.len()
        invariant
            i <= guess_chars@.len(),
            guess_chars@ == guess@,
            solution_chars@ == solution@,
            results@.len() == guess_chars@.len(),
            forall|j: int|
                0 <= j < guess@.len() ==> results@[j] == outcome_at(guess@, solution@, j),
            letters@.len() == i,
            forall|j: int| 0 <= j < i ==> letters@[j] == evaluation(guess@, solution@)[j],
        decreases guess_chars@.len() - i,
    {
        letters.push((guess_chars[i], results[i]));
        i += 1;
    }
    assert(letters@ =~= evaluation(guess@, solution@));
    GuessOutcome { letters }
}

} // verus!
