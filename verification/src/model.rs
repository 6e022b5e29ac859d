//! The mathematical model of a game: what a state holds, what a feedback
//! does to it, which words still fit, and which guess comes next.

use vstd::prelude::*;
use crate::alphabet::{
    is_letter, is_word, is_word_list, lemma_letter_count_bound, letter_count, letter_count_upto,
    WORD_LENGTH,
};
use crate::evaluate::{evaluation, is_exact, lemma_duplicate_letters};
use crate::frequency::FrequencyPredicate;
use crate::outcome::{
    absent_count, absent_upto, is_winning, leading_non_absent_count, leading_non_absent_upto,
    lemma_count_bounds, non_absent_count, non_absent_upto, LetterOutcome,
};
use crate::selector::{first_best_index, lemma_first_best_exists};
use crate::text::{decimal, joined, list_separator};

verus! {

/// Number of guesses that a game allows.
pub const NUM_GUESSES: u8 = 6;

/// The guess that opens every game. It was found ahead of time to be the
/// best first guess.
pub const BEST_FIRST_GUESS: &'static str = "ROATE";

/// The letters of the opening guess.
pub open spec fn opening_word() -> Seq<char> {
    seq!['R', 'O', 'A', 'T', 'E']
}

/// The opening guess is a word.
pub proof fn lemma_opening_word()
    ensures
        BEST_FIRST_GUESS@ == opening_word(),
        is_word(opening_word()),
{
    reveal_strlit("ROATE");
    assert(BEST_FIRST_GUESS@ =~= opening_word());
}

/// The letters still possible at position `i` once `outcome` is known, if
/// they were `prev` before: a `Correct` letter is the only one left, any
/// other letter of the guess is ruled out at its own position.
pub open spec fn letters_after(
    prev: Set<char>,
    outcome: Seq<(char, LetterOutcome)>,
    i: int,
) -> Set<char> {
    if 0 <= i < outcome.len() {
        if outcome[i].1 == LetterOutcome::Correct {
            set![outcome[i].0]
        } else {
            prev.remove(outcome[i].0)
        }
    } else {
        prev
    }
}

/// The bounds on letter `c` once the first `n` entries of `outcome` are
/// known, if they were `prev` before.
///
/// The occurrences of `c` that are not `Absent` raise the lower bound to
/// their number. Once an occurrence is `Absent`, the upper bound is lowered
/// to the number of occurrences not `Absent` that came before the first
/// `Absent` one.
pub open spec fn frequency_after_upto(
    prev: FrequencyPredicate,
    outcome: Seq<(char, LetterOutcome)>,
    c: char,
    n: int,
) -> FrequencyPredicate {
    let raised = if non_absent_upto(outcome, c, n) > 0 {
        prev.with_min(non_absent_upto(outcome, c, n) as u8)
    } else {
        prev
    };
    if absent_upto(outcome, c, n) > 0 {
        raised.with_max(leading_non_absent_upto(outcome, c, n) as u8)
    } else {
        raised
    }
}

/// The bounds on letter `c` once `outcome` is known, if they were `prev`
/// before.
pub open spec fn frequency_after(
    prev: FrequencyPredicate,
    outcome: Seq<(char, LetterOutcome)>,
    c: char,
) -> FrequencyPredicate {
    frequency_after_upto(prev, outcome, c, outcome.len() as int)
}

/// The bounds after one more occurrence of the letter has been looked at:
/// `seen` occurrences so far were not `Absent`, and `capped` tells whether
/// one was.
pub open spec fn record_occurrence(
    current: FrequencyPredicate,
    seen: u8,
    capped: bool,
) -> FrequencyPredicate {
    let raised = if seen > 0 {
        current.with_min(seen)
    } else {
        current
    };
    if capped {
        raised.with_max(seen)
    } else {
        raised
    }
}

/// Looking at the entries of an outcome one by one, in order, arrives at
/// `frequency_after_upto`.
pub proof fn lemma_frequency_step(
    prev: FrequencyPredicate,
    outcome: Seq<(char, LetterOutcome)>,
    c: char,
    i: int,
)
    requires
        0 <= i < outcome.len() <= u8::MAX,
    ensures
        outcome[i].0 == c ==> frequency_after_upto(prev, outcome, c, i + 1) == record_occurrence(
            frequency_after_upto(prev, outcome, c, i),
            non_absent_upto(outcome, c, i + 1) as u8,
            absent_upto(outcome, c, i + 1) > 0,
        ),
        outcome[i].0 != c ==> frequency_after_upto(prev, outcome, c, i + 1)
            == frequency_after_upto(prev, outcome, c, i),
{
    lemma_count_bounds(outcome, c, i);
    lemma_count_bounds(outcome, c, i + 1);
}

/// Of every letter, the occurrences marked `Absent` come after all the
/// others.
pub open spec fn absent_comes_last(outcome: Seq<(char, LetterOutcome)>) -> bool {
    forall|c: char|
        (#[trigger] absent_count(outcome, c)) > 0 ==> leading_non_absent_count(outcome, c)
            == non_absent_count(outcome, c)
}

/// No letter occurs twice in the word.
pub open spec fn has_distinct_letters(word: Seq<char>) -> bool {
    forall|i: int, j: int| 0 <= i < j < word.len() ==> word[i] != word[j]
}

/// In a word of distinct letters a letter occurs at most once.
proof fn lemma_distinct_letter_count(word: Seq<char>, c: char, n: int)
    requires
        has_distinct_letters(word),
        0 <= n <= word.len(),
    ensures
        letter_count_upto(word, c, n) <= 1,
        letter_count_upto(word, c, n) == 1 ==> exists|i: int| 0 <= i < n && word[i] == c,
    decreases n,
{
    if n > 0 {
        lemma_distinct_letter_count(word, c, n - 1);
        if word[n - 1] == c && letter_count_upto(word, c, n - 1) == 1 {
            let i = choose|i: int| 0 <= i < n - 1 && word[i] == c;
            assert(word[i] != word[n - 1]);
        }
    }
}

/// The feedback for a guess speaks of each letter as often as the guess
/// holds it.
proof fn lemma_evaluation_counts(guess: Seq<char>, solution: Seq<char>, c: char, n: int)
    requires
        0 <= n <= guess.len(),
    ensures
        non_absent_upto(evaluation(guess, solution), c, n) + absent_upto(
            evaluation(guess, solution),
            c,
            n,
        ) == letter_count_upto(guess, c, n),
    decreases n,
{
    if n > 0 {
        lemma_evaluation_counts(guess, solution, c, n - 1);
    }
}

/// The feedback for a guess of distinct letters marks no letter `Absent`
/// before another occurrence of it.
pub proof fn lemma_distinct_letters_absent_last(guess: Seq<char>, solution: Seq<char>)
    requires
        has_distinct_letters(guess),
    ensures
        absent_comes_last(evaluation(guess, solution)),
{
    let outcome = evaluation(guess, solution);
    assert forall|c: char| (#[trigger] absent_count(outcome, c)) > 0 implies
        leading_non_absent_count(outcome, c) == non_absent_count(outcome, c) by {
        let n = guess.len() as int;
        lemma_evaluation_counts(guess, solution, c, n);
        lemma_distinct_letter_count(guess, c, n);
        lemma_count_bounds(outcome, c, n);
    }
}

/// Filtering twice, the second time by a stricter predicate, is filtering
/// once by the stricter predicate.
proof fn lemma_filter_twice(
    list: Seq<Seq<char>>,
    loose: spec_fn(Seq<char>) -> bool,
    strict: spec_fn(Seq<char>) -> bool,
)
    requires
        forall|word: Seq<char>| #[trigger] strict(word) ==> loose(word),
    ensures
        list.filter(loose).filter(strict) == list.filter(strict),
    decreases list.len(),
{
    if list.len() > 0 {
        let front = list.drop_last();
        let last = list.last();
        lemma_filter_twice(front, loose, strict);
        assert(list =~= front.push(last));
        front.lemma_filter_push(last, loose);
        front.lemma_filter_push(last, strict);
        if loose(last) {
            front.filter(loose).lemma_filter_push(last, strict);
        }
    } else {
        assert(list.filter(loose) =~= list);
    }
}

/// Filtering by a predicate that holds of every entry keeps the list.
proof fn lemma_filter_all(list: Seq<Seq<char>>, holds: spec_fn(Seq<char>) -> bool)
    requires
        forall|i: int| 0 <= i < list.len() ==> holds(#[trigger] list[i]),
    ensures
        list.filter(holds) == list,
    decreases list.len(),
{
    if list.len() > 0 {
        let front = list.drop_last();
        let last = list.last();
        assert forall|i: int| 0 <= i < front.len() implies holds(#[trigger] front[i]) by {
            assert(front[i] == list[i]);
        }
        lemma_filter_all(front, holds);
        assert(list =~= front.push(last));
        front.lemma_filter_push(last, holds);
    } else {
        assert(list.filter(holds) =~= list);
    }
}

/// What a turn of the game comes to once the feedback for the guess is in.
#[derive(Clone, Copy, Debug, PartialEq, Eq, Structural)]
pub enum Progress {
    /// The feedback marks every letter `Correct`: the guess was the solution.
    Won,
    /// The feedback was recorded and candidates are left.
    Narrowed,
    /// The feedback was recorded and no candidate is left.
    Exhausted,
    /// The feedback cannot be taken in and was not recorded.
    Rejected,
}

/// The mathematical content of a game state.
pub struct GameStateView {
    /// The words that may be proposed as guesses.
    pub dictionary: Seq<Seq<char>>,
    /// The candidate solutions that are left.
    pub possible_solutions: Seq<Seq<char>>,
    /// No feedback has been taken in yet.
    pub is_initial_state: bool,
    /// For every letter, the bounds on its number of occurrences.
    pub letter_frequencies: Map<char, FrequencyPredicate>,
    /// For every position, the letters that may stand there.
    pub possible_letters: Seq<Set<char>>,
}

impl GameStateView {
    /// The dictionary is a non-empty list of words, the candidates are
    /// words, every position has its set of letters and every letter its
    /// bounds.
    pub open spec fn wf(self) -> bool {
        &&& self.dictionary.len() > 0
        &&& is_word_list(self.dictionary)
        &&& is_word_list(self.possible_solutions)
        &&& self.possible_letters.len() == WORD_LENGTH
        &&& forall|i: int, c: char|
            0 <= i < self.possible_letters.len() && #[trigger] self.possible_letters[i].contains(c)
                ==> is_letter(c)
        &&& forall|c: char| self.letter_frequencies.dom().contains(c) <==> is_letter(c)
    }

    /// The state before any feedback: every candidate is possible, every
    /// letter may stand anywhere, and no bounds are known.
    pub open spec fn initial(
        dictionary: Seq<Seq<char>>,
        solutions: Seq<Seq<char>>,
    ) -> GameStateView {
        GameStateView {
            dictionary,
            possible_solutions: solutions,
            is_initial_state: true,
            letter_frequencies: Map::new(
                |c: char| is_letter(c),
                |c: char| FrequencyPredicate::unbounded(),
            ),
            possible_letters: Seq::new(
                WORD_LENGTH as nat,
                |i: int| Set::new(|c: char| is_letter(c)),
            ),
        }
    }

    /// The feedback can be taken in: it has no more entries than a word has
    /// letters, it speaks of letters only, and a letter it calls `Correct`
    /// is still possible at its position.
    pub open spec fn accepts(self, outcome: Seq<(char, LetterOutcome)>) -> bool {
        &&& outcome.len() <= WORD_LENGTH
        &&& forall|i: int| 0 <= i < outcome.len() ==> is_letter((#[trigger] outcome[i]).0)
        &&& forall|i: int|
            0 <= i < outcome.len() && (#[trigger] outcome[i]).1 == LetterOutcome::Correct
                ==> self.possible_letters[i].contains(outcome[i].0)
    }

    /// The state after the feedback has been recorded, with the candidates
    /// not yet looked through again.
    pub open spec fn constrain(self, outcome: Seq<(char, LetterOutcome)>) -> GameStateView {
        GameStateView {
            dictionary: self.dictionary,
            possible_solutions: self.possible_solutions,
            is_initial_state: false,
            letter_frequencies: Map::new(
                |c: char| is_letter(c),
                |c: char| frequency_after(self.letter_frequencies[c], outcome, c),
            ),
            possible_letters: Seq::new(
                self.possible_letters.len(),
                |i: int| letters_after(self.possible_letters[i], outcome, i),
            ),
        }
    }

    /// The word meets the constraints: each of its letters is possible at
    /// its position, and it holds every letter as often as the bounds on
    /// that letter ask. A letter without bounds may occur any number of
    /// times, and a word with more letters than there are positions never
    /// fits.
    pub open spec fn fits(self, word: Seq<char>) -> bool {
        &&& word.len() <= self.possible_letters.len()
        &&& forall|i: int| 0 <= i < word.len() ==> self.possible_letters[i].contains(word[i])
        &&& forall|c: char|
            is_letter(c) ==> (#[trigger] self.letter_frequencies[c]).admits(letter_count(word, c))
    }

    /// `fits`, as a predicate on words.
    pub open spec fn fitting(self) -> spec_fn(Seq<char>) -> bool {
        |word: Seq<char>| self.fits(word)
    }

    /// The state with the candidates looked through again: those that meet
    /// the constraints stay, in their order.
    pub open spec fn refresh(self) -> GameStateView {
        GameStateView {
            dictionary: self.dictionary,
            possible_solutions: self.possible_solutions.filter(self.fitting()),
            is_initial_state: self.is_initial_state,
            letter_frequencies: self.letter_frequencies,
            possible_letters: self.possible_letters,
        }
    }

    /// Every candidate meets the constraints.
    pub open spec fn settled(self) -> bool {
        forall|i: int|
            0 <= i < self.possible_solutions.len() ==> self.fits(
                #[trigger] self.possible_solutions[i],
            )
    }

    /// The guess to make next: the opening guess before any feedback, the
    /// candidate if only one is left, and otherwise the first word of the
    /// dictionary with the greatest gain over the candidates.
    pub open spec fn best_guess(self) -> Seq<char> {
        if self.is_initial_state {
            opening_word()
        } else if self.possible_solutions.len() == 1 {
            self.possible_solutions[0]
        } else {
            self.dictionary[first_best_index(self.dictionary, self.possible_solutions)]
        }
    }

    /// The candidates, rendered as text.
    pub open spec fn possible_solutions_summary(self) -> Seq<char> {
        joined(self.possible_solutions, list_separator())
    }

    /// The state, rendered as text: the number of candidates and the
    /// candidates themselves.
    pub open spec fn summary(self) -> Seq<char> {
        decimal(self.possible_solutions.len()) + " possible solutions: ["@
            + self.possible_solutions_summary() + "]"@
    }

    /// What the turn comes to when `outcome` is the feedback for the guess.
    pub open spec fn progress(self, outcome: Seq<(char, LetterOutcome)>) -> Progress {
        if is_winning(outcome) {
            Progress::Won
        } else if !self.accepts(outcome) {
            Progress::Rejected
        } else if self.constrain(outcome).refresh().exhausted() {
            Progress::Exhausted
        } else {
            Progress::Narrowed
        }
    }

    /// The state after the turn: a feedback that wins or is rejected leaves
    /// the state as it is, any other is recorded and the candidates are
    /// looked through again.
    pub open spec fn after_turn(self, outcome: Seq<(char, LetterOutcome)>) -> GameStateView {
        match self.progress(outcome) {
            Progress::Won | Progress::Rejected => self,
            Progress::Narrowed | Progress::Exhausted => self.constrain(outcome).refresh(),
        }
    }

    /// No candidate is left: the feedback taken in contradicts itself, or
    /// the solution is not among the candidates the game started with.
    pub open spec fn exhausted(self) -> bool {
        self.possible_solutions.len() == 0
    }
}

impl GameStateView {
    /// Looking through the candidates keeps exactly those that meet the
    /// constraints: afterwards every candidate does, each was a candidate
    /// before, and there are no more of them than before.
    pub proof fn lemma_refresh_keeps_fitting(self)
        ensures
            self.refresh().settled(),
            self.refresh().possible_solutions.len() <= self.possible_solutions.len(),
            forall|i: int|
                0 <= i < self.refresh().possible_solutions.len()
                    ==> self.possible_solutions.contains(
                    #[trigger] self.refresh().possible_solutions[i],
                ),
            is_word_list(self.possible_solutions) ==> is_word_list(
                self.refresh().possible_solutions,
            ),
    {
        self.possible_solutions.lemma_filter_len(self.fitting());
        let kept = self.refresh().possible_solutions;
        assert forall|i: int| 0 <= i < kept.len() implies self.refresh().fits(
            #[trigger] kept[i],
        ) && self.possible_solutions.contains(kept[i]) by {
            self.possible_solutions.lemma_filter_pred(self.fitting(), i);
            assert(kept.contains(kept[i]));
            self.possible_solutions.lemma_filter_contains_rev(self.fitting(), kept[i]);
        }
        if is_word_list(self.possible_solutions) {
            assert forall|i: int| 0 <= i < kept.len() implies is_word(#[trigger] kept[i]) by {
                assert(self.possible_solutions.contains(kept[i]));
            }
        }
    }

    /// Monotonic narrowing: taking in a feedback never adds a candidate.
    /// There are no more candidates afterwards than before, and each of
    /// them was a candidate before.
    pub proof fn lemma_update_narrows(self, outcome: Seq<(char, LetterOutcome)>)
        ensures
            self.constrain(outcome).refresh().possible_solutions.len()
                <= self.possible_solutions.len(),
            forall|i: int|
                0 <= i < self.constrain(outcome).refresh().possible_solutions.len()
                    ==> self.possible_solutions.contains(
                    #[trigger] self.constrain(outcome).refresh().possible_solutions[i],
                ),
    {
        self.constrain(outcome).lemma_refresh_keeps_fitting();
    }

    /// The candidates are always the solutions the game started with that
    /// meet the constraints: if that holds of a state, it holds again once
    /// a feedback is taken in. Before any feedback it holds because all
    /// solutions meet the constraints (`lemma_initial_is_settled`).
    pub proof fn lemma_candidates_are_fitting_solutions(
        self,
        outcome: Seq<(char, LetterOutcome)>,
        solutions: Seq<Seq<char>>,
    )
        requires
            self.wf(),
            self.accepts(outcome),
            self.possible_solutions == solutions.filter(self.fitting()),
        ensures
            self.constrain(outcome).refresh().possible_solutions == solutions.filter(
                self.constrain(outcome).fitting(),
            ),
    {
        self.lemma_constrain_tightens(outcome);
        lemma_filter_twice(solutions, self.fitting(), self.constrain(outcome).fitting());
    }

    /// Opening shortcut: before any feedback the guess is the opening
    /// guess, whatever the dictionary and the candidates are.
    pub proof fn lemma_opening_shortcut(dictionary: Seq<Seq<char>>, solutions: Seq<Seq<char>>)
        ensures
            GameStateView::initial(dictionary, solutions).best_guess() == opening_word(),
    {
    }

    /// Single-candidate shortcut: once feedback has been taken in and one
    /// candidate is left, the guess is that candidate.
    pub proof fn lemma_single_candidate_shortcut(self)
        requires
            !self.is_initial_state,
            self.possible_solutions.len() == 1,
        ensures
            self.best_guess() == self.possible_solutions[0],
    {
    }

    /// A well-formed state proposes a word.
    pub proof fn lemma_best_guess_is_word(self)
        requires
            self.wf(),
        ensures
            is_word(self.best_guess()),
    {
        lemma_opening_word();
        if !self.is_initial_state && self.possible_solutions.len() != 1 {
            lemma_first_best_exists(self.dictionary, self.possible_solutions);
        }
    }

    /// Bound tightening never loosens. Recording a feedback leaves every
    /// bound that was known in place or tightens it: a lower bound never
    /// decreases and an upper bound never increases. Likewise no letter
    /// becomes possible at a position where it was ruled out.
    pub proof fn lemma_constrain_tightens(self, outcome: Seq<(char, LetterOutcome)>)
        requires
            self.wf(),
            self.accepts(outcome),
        ensures
            self.constrain(outcome).wf(),
            forall|c: char|
                is_letter(c) ==> (#[trigger] self.constrain(
                    outcome,
                ).letter_frequencies[c]).tightens(self.letter_frequencies[c]),
            forall|i: int|
                0 <= i < WORD_LENGTH ==> (#[trigger] self.constrain(
                    outcome,
                ).possible_letters[i]).subset_of(self.possible_letters[i]),
            forall|word: Seq<char>| self.constrain(outcome).fits(word) ==> self.fits(word),
    {
        let after = self.constrain(outcome);
        assert forall|word: Seq<char>| after.fits(word) implies self.fits(word) by {
            assert forall|i: int| 0 <= i < word.len() implies self.possible_letters[i].contains(
                word[i],
            ) by {
                assert(after.possible_letters[i].contains(word[i]));
            }
            assert forall|c: char| is_letter(c) implies (
            #[trigger] self.letter_frequencies[c]).admits(letter_count(word, c)) by {
                assert(after.letter_frequencies[c].admits(letter_count(word, c)));
            }
        }
    }

    /// Before any feedback every candidate meets the constraints, so that
    /// the candidates are the solutions that do.
    pub proof fn lemma_initial_is_settled(dictionary: Seq<Seq<char>>, solutions: Seq<Seq<char>>)
        requires
            is_word_list(solutions),
        ensures
            GameStateView::initial(dictionary, solutions).settled(),
            solutions.filter(GameStateView::initial(dictionary, solutions).fitting())
                == solutions,
            dictionary.len() > 0 && is_word_list(dictionary) ==> GameStateView::initial(
                dictionary,
                solutions,
            ).wf(),
    {
        let state = GameStateView::initial(dictionary, solutions);
        assert forall|i: int| 0 <= i < solutions.len() implies (state.fitting())(
            #[trigger] solutions[i],
        ) by {
            assert(is_word(solutions[i]));
        }
        lemma_filter_all(solutions, state.fitting());
    }

    /// While candidates are left that meet the constraints, every position
    /// has a letter that is possible there.
    pub proof fn lemma_positions_stay_possible(self, i: int)
        requires
            self.wf(),
            self.settled(),
            !self.exhausted(),
            0 <= i < WORD_LENGTH,
        ensures
            exists|c: char| self.possible_letters[i].contains(c),
    {
        let word = self.possible_solutions[0];
        assert(is_word(word));
        assert(self.fits(word));
        assert(self.possible_letters[i].contains(word[i]));
    }

    /// A letter whose lower bound lies above its upper bound leaves no word
    /// that meets the constraints.
    pub proof fn lemma_crossed_bounds_fit_nothing(self, c: char, word: Seq<char>)
        requires
            is_letter(c),
            self.letter_frequencies[c].min_occurrences matches Some(min)
                && self.letter_frequencies[c].max_occurrences matches Some(max) && min > max,
        ensures
            !self.fits(word),
    {
        assert(!self.letter_frequencies[c].admits(letter_count(word, c)));
    }

    /// A feedback that marks a letter `Absent` before another occurrence
    /// of the same letter leaves no word that meets the constraints: the
    /// upper bound for the letter falls below its lower bound.
    pub proof fn lemma_absent_before_other_fits_nothing(
        self,
        outcome: Seq<(char, LetterOutcome)>,
        c: char,
        word: Seq<char>,
    )
        requires
            is_letter(c),
            outcome.len() <= WORD_LENGTH,
            absent_count(outcome, c) > 0,
            leading_non_absent_count(outcome, c) < non_absent_count(outcome, c),
        ensures
            !self.constrain(outcome).fits(word),
    {
        lemma_count_bounds(outcome, c, outcome.len() as int);
        self.constrain(outcome).lemma_crossed_bounds_fit_nothing(c, word);
    }

    /// Truthful feedback can always be taken in: if a word meets the
    /// constraints, the feedback that any guess gets against that word as
    /// the solution is accepted.
    pub proof fn lemma_truthful_feedback_is_accepted(
        self,
        guess: Seq<char>,
        solution: Seq<char>,
    )
        requires
            self.fits(solution),
            is_word(guess),
        ensures
            self.accepts(evaluation(guess, solution)),
    {
        let outcome = evaluation(guess, solution);
        assert forall|i: int|
            0 <= i < outcome.len() && (#[trigger] outcome[i]).1
                == LetterOutcome::Correct implies self.possible_letters[i].contains(
            outcome[i].0,
        ) by {
            assert(is_exact(guess, solution, i));
        }
    }

    /// Truthful feedback keeps the solution, as long as it marks no letter
    /// `Absent` before another occurrence of the same letter: if a word
    /// meets the constraints, it still does once the feedback that a guess
    /// gets against it is recorded.
    ///
    /// Without that condition the solution is lost: see
    /// `lemma_absent_before_other_fits_nothing`.
    pub proof fn lemma_truthful_feedback_keeps_solution(
        self,
        guess: Seq<char>,
        solution: Seq<char>,
    )
        requires
            self.fits(solution),
            guess.len() <= WORD_LENGTH,
            absent_comes_last(evaluation(guess, solution)),
        ensures
            self.constrain(evaluation(guess, solution)).fits(solution),
    {
        let outcome = evaluation(guess, solution);
        let after = self.constrain(outcome);
        assert forall|i: int| 0 <= i < solution.len() implies after.possible_letters[i].contains(
            solution[i],
        ) by {
            assert(self.possible_letters[i].contains(solution[i]));
            if i < outcome.len() {
                assert(outcome[i].1 == LetterOutcome::Correct <==> is_exact(guess, solution, i));
            }
        }
        assert forall|c: char| is_letter(c) implies (#[trigger] after.letter_frequencies[c]).admits(
            letter_count(solution, c),
        ) by {
            let prev = self.letter_frequencies[c];
            assert(prev.admits(letter_count(solution, c)));
            lemma_duplicate_letters(guess, solution, c);
            lemma_count_bounds(outcome, c, outcome.len() as int);
            lemma_letter_count_bound(guess, c, guess.len() as int);
            assert(absent_count(outcome, c) > 0 ==> leading_non_absent_count(outcome, c)
                == non_absent_count(outcome, c));
        }
    }

    /// Under the same conditions the solution stays among the candidates
    /// when they are looked through again.
    pub proof fn lemma_solution_stays_candidate(self, guess: Seq<char>, solution: Seq<char>)
        requires
            self.possible_solutions.contains(solution),
            self.fits(solution),
            guess.len() <= WORD_LENGTH,
            absent_comes_last(evaluation(guess, solution)),
        ensures
            self.constrain(evaluation(guess, solution)).refresh().possible_solutions.contains(
                solution,
            ),
    {
        let after = self.constrain(evaluation(guess, solution));
        self.lemma_truthful_feedback_keeps_solution(guess, solution);
        let i = choose|i: int|
            0 <= i < self.possible_solutions.len() && self.possible_solutions[i] == solution;
        assert((after.fitting())(after.possible_solutions[i]));
        after.possible_solutions.lemma_filter_contains(after.fitting(), i);
    }
}

} // verus!
