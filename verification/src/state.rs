//! The state of a game: the candidate solutions and what the feedback so far
//! says about the letters of the solution.

use vstd::prelude::*;
use vstd::string::StringExecFns;
use crate::alphabet::{
    chars_of, index_of_letter, is_letter, is_letter_char, is_valid_word_list, is_word,
    is_word_list, lemma_letter_count_bound, letter_at, letter_count, letter_count_upto,
    letter_index, words_of, LetterSet, ALPHABET_SIZE, WORD_LENGTH,
};
use crate::frequency::FrequencyPredicate;
use crate::model::{
    frequency_after, frequency_after_upto, lemma_frequency_step, lemma_opening_word,
    letters_after, opening_word, GameStateView, Progress, BEST_FIRST_GUESS,
};
use crate::outcome::{absent_upto, lemma_count_bounds, non_absent_upto, GuessOutcome, LetterOutcome};
use crate::selector::{
    best_guess_index, is_first_best, lemma_first_best_unique, letters_of_list, scaled_gain,
    scaled_gain_of,
};
use crate::text::{comma_separated, decimal_string};

verus! {

/// The state of one game.
pub struct GameState<'a> {
    dictionary: &'a Vec<String>,
    possible_solutions: Vec<String>,
    is_initial_state: bool,
    letter_frequencies: Vec<FrequencyPredicate>,
    possible_letters: Vec<LetterSet>,
}

impl<'a> View for GameState<'a> {
    type V = GameStateView;

    closed spec fn view(&self) -> GameStateView {
        GameStateView {
            dictionary: words_of(self.dictionary@),
            possible_solutions: words_of(self.possible_solutions@),
            is_initial_state: self.is_initial_state,
            letter_frequencies: Map::new(
                |c: char| is_letter(c),
                |c: char| self.letter_frequencies@[letter_index(c)],
            ),
            possible_letters: Seq::new(
                self.possible_letters@.len(),
                |i: int| self.possible_letters@[i]@,
            ),
        }
    }
}

impl<'a> GameState<'a> {
    /// The state is well formed: see `GameStateView::wf`.
    pub closed spec fn wf(&self) -> bool {
        &&& self.letter_frequencies@.len() == ALPHABET_SIZE
        &&& self.possible_letters@.len() == WORD_LENGTH
        &&& self@.wf()
    }

    /// A well-formed state has a well-formed view.
    pub proof fn lemma_wf_view(&self)
        requires
            self.wf(),
        ensures
            self@.wf(),
    {
    }

    /// Starts a game with the given dictionary of guesses and list of
    /// candidate solutions.
    pub fn new(dictionary: &'a Vec<String>, possible_solutions: &Vec<String>) -> (state: GameState<
        'a,
    >)
        requires
            dictionary@.len() > 0,
            is_word_list(words_of(dictionary@)),
            is_word_list(words_of(possible_solutions@)),
        ensures
            state.wf(),
            state@ == GameStateView::initial(
                words_of(dictionary@),
                words_of(possible_solutions@),
            ),
            state@.settled(),
    {
        let mut letter_frequencies: Vec<FrequencyPredicate> = Vec::new();
        let mut k: usize = 0;
        while k < ALPHABET_SIZE
            invariant
                k <= ALPHABET_SIZE,
                letter_frequencies@.len() == k,
                forall|j: int|
                    0 <= j < k ==> letter_frequencies@[j] == FrequencyPredicate::unbounded(),
            decreases ALPHABET_SIZE - k,
        {
            letter_frequencies.push(FrequencyPredicate::new());
            k += 1;
        }
        let mut possible_letters: Vec<LetterSet> = Vec::new();
        let mut i: usize = 0;
        while i < WORD_LENGTH
            invariant
                i <= WORD_LENGTH,
                possible_letters@.len() == i,
                forall|j: int, c: char|
                    0 <= j < i ==> (#[trigger] possible_letters@[j]@.contains(c) <==> is_letter(c)),
            decreases WORD_LENGTH - i,
        {
            possible_letters.push(LetterSet::full());
            i += 1;
        }
        let state = GameState {
            dictionary,
            possible_solutions: possible_solutions.clone(),
            is_initial_state: true,
            letter_frequencies,
            possible_letters,
        };
        proof {
            let target = GameStateView::initial(
                words_of(dictionary@),
                words_of(possible_solutions@),
            );
            assert(state@.possible_solutions =~= target.possible_solutions);
            assert(state@.letter_frequencies =~= target.letter_frequencies);
            assert forall|j: int| 0 <= j < WORD_LENGTH implies state@.possible_letters[j]
                == target.possible_letters[j] by {
                assert(state@.possible_letters[j] =~= target.possible_letters[j]);
            }
            assert(state@.possible_letters =~= target.possible_letters);
            GameStateView::lemma_initial_is_settled(
                words_of(dictionary@),
                words_of(possible_solutions@),
            );
        }
        state
    }

    /// Starts a game if the lists allow it: the dictionary must not be
    /// empty, and every entry of both lists must be a word.
    pub fn try_new(dictionary: &'a Vec<String>, possible_solutions: &Vec<String>) -> (state: Option<
        GameState<'a>,
    >)
        ensures
            state is Some <==> dictionary@.len() > 0 && is_word_list(words_of(dictionary@))
                && is_word_list(words_of(possible_solutions@)),
            state matches Some(started) ==> started.wf() && started@.settled() && started@
                == GameStateView::initial(words_of(dictionary@), words_of(possible_solutions@)),
    {
        if dictionary.len() > 0 && is_valid_word_list(dictionary) && is_valid_word_list(
            possible_solutions,
        ) {
            Some(GameState::new(dictionary, possible_solutions))
        } else {
            None
        }
    }

    /// Records a feedback in the constraints: the letters possible at each
    /// position of the guess, and the bounds on each letter of the guess.
    /// The candidates are not looked through again.
    pub fn _update_state(&mut self, guess: GuessOutcome)
        requires
            old(self).wf(),
            old(self)@.accepts(guess@),
        ensures
            final(self).wf(),
            final(self)@ == old(self)@.constrain(guess@),
    {
        let n = guess.letters.len();
        self.is_initial_state = false;
        let mut i: usize = 0;
        while i < n
            invariant
                i <= n,
                n == guess@.len(),
                old(self).wf(),
                old(self)@.accepts(guess@),
                self.dictionary == old(self).dictionary,
                self.possible_solutions == old(self).possible_solutions,
                self.letter_frequencies == old(self).letter_frequencies,
                !self.is_initial_state,
                self.possible_letters@.len() == WORD_LENGTH,
                forall|j: int|
                    0 <= j < i ==> (#[trigger] self.possible_letters@[j])@ == letters_after(
                        old(self).possible_letters@[j]@,
                        guess@,
                        j,
                    ),
                forall|j: int|
                    i <= j < WORD_LENGTH ==> #[trigger] self.possible_letters@[j] == old(
                        self,
                    ).possible_letters@[j],
            decreases n - i,
        {
            let letter = guess.letters[i].0;
            let outcome = guess.letters[i].1;
            assert(is_letter(guess@[i as int].0));
            match outcome {
                LetterOutcome::Correct => {
                    self.possible_letters.set(i, LetterSet::only(letter));
                },
                _ => {
                    let mut letters = self.possible_letters[i];
                    letters.remove(letter);
                    self.possible_letters.set(i, letters);
                },
            }
            i += 1;
        }
        let mut k: usize = 0;
        while k < ALPHABET_SIZE
            invariant
                k <= ALPHABET_SIZE,
                n == guess@.len(),
                old(self).wf(),
                old(self)@.accepts(guess@),
                self.dictionary == old(self).dictionary,
                self.possible_solutions == old(self).possible_solutions,
                !self.is_initial_state,
                self.possible_letters@.len() == WORD_LENGTH,
                forall|j: int|
                    0 <= j < WORD_LENGTH ==> (#[trigger] self.possible_letters@[j])@
                        == letters_after(old(self).possible_letters@[j]@, guess@, j),
                self.letter_frequencies@.len() == ALPHABET_SIZE,
                forall|j: int|
                    0 <= j < k ==> #[trigger] self.letter_frequencies@[j] == frequency_after(
                        old(self).letter_frequencies@[j],
                        guess@,
                        letter_at(j),
                    ),
                forall|j: int|
                    k <= j < ALPHABET_SIZE ==> #[trigger] self.letter_frequencies@[j] == old(
                        self,
                    ).letter_frequencies@[j],
            decreases ALPHABET_SIZE - k,
        {
            let ghost c = letter_at(k as int);
            let ghost prev = self.letter_frequencies@[k as int];
            let mut predicate = self.letter_frequencies[k];
            let mut seen: u8 = 0;
            let mut capped = false;
            let mut i: usize = 0;
            while i < n
                invariant
                    i <= n,
                    n == guess@.len(),
                    n <= WORD_LENGTH,
                    k < ALPHABET_SIZE,
                    c == letter_at(k as int),
                    forall|j: int| 0 <= j < n ==> is_letter((#[trigger] guess@[j]).0),
                    seen == non_absent_upto(guess@, c, i as int),
                    capped == (absent_upto(guess@, c, i as int) > 0),
                    predicate == frequency_after_upto(prev, guess@, c, i as int),
                decreases n - i,
            {
                let letter = guess.letters[i].0;
                let outcome = guess.letters[i].1;
                proof {
                    assert(is_letter(guess@[i as int].0));
                    lemma_count_bounds(guess@, c, i as int);
                    lemma_count_bounds(guess@, c, i + 1);
                    lemma_frequency_step(prev, guess@, c, i as int);
                }
                if index_of_letter(letter) == k {
                    assert(letter == c);
                    match outcome {
                        LetterOutcome::Absent => {
                            capped = true;
                        },
                        _ => {
                            seen += 1;
                        },
                    }
                    if seen > 0 {
                        predicate.update_min(seen);
                    }
                    if capped {
                        predicate.update_max(seen);
                    }
                } else {
                    assert(letter != c);
                }
                i += 1;
            }
            self.letter_frequencies.set(k, predicate);
            k += 1;
        }
        proof {
            let target = old(self)@.constrain(guess@);
            assert forall|c: char| is_letter(c) implies #[trigger] self@.letter_frequencies[c]
                == target.letter_frequencies[c] by {
                assert(letter_at(letter_index(c)) == c);
            }
            assert(self@.letter_frequencies =~= target.letter_frequencies);
            assert(self@.possible_letters =~= target.possible_letters);
            old(self).lemma_wf_view();
            assert forall|j: int, d: char|
                0 <= j < self@.possible_letters.len()
                    && #[trigger] self@.possible_letters[j].contains(d) implies is_letter(d) by {
                assert(old(self)@.possible_letters[j].contains(d) || (j < n && d == guess@[j].0));
            }
        }
    }

    /// Tells whether a word meets the constraints recorded so far.
    pub fn _word_fits(&self, word: &str) -> (r: bool)
        requires
            self.wf(),
        ensures
            r == self@.fits(word@),
    {
        let chars = chars_of(word);
        let n = chars.len();
        if n > WORD_LENGTH {
            return false;
        }
        let mut counts: Vec<u8> = Vec::new();
        let mut k: usize = 0;
        while k < ALPHABET_SIZE
            invariant
                k <= ALPHABET_SIZE,
                counts@.len() == k,
                forall|j: int| 0 <= j < k ==> counts@[j] == 0,
            decreases ALPHABET_SIZE - k,
        {
            counts.push(0);
            k += 1;
        }
        let mut i: usize = 0;
        while i < n
            invariant
                i <= n,
                n == word@.len(),
                n <= WORD_LENGTH,
                chars@ == word@,
                self.wf(),
                counts@.len() == ALPHABET_SIZE,
                forall|j: int| 0 <= j < i ==> self@.possible_letters[j].contains(word@[j]),
                forall|j: int|
                    0 <= j < ALPHABET_SIZE ==> #[trigger] counts@[j] == letter_count_upto(
                        word@,
                        letter_at(j),
                        i as int,
                    ),
            decreases n - i,
        {
            let letter = chars[i];
            if !self.possible_letters[i].contains(letter) {
                assert(!self@.possible_letters[i as int].contains(word@[i as int]));
                return false;
            }
            assert(self@.possible_letters[i as int].contains(letter));
            let k = index_of_letter(letter);
            proof {
                assert(letter_at(k as int) == letter);
                lemma_letter_count_bound(word@, letter, i as int);
            }
            let count = counts[k];
            counts.set(k, count + 1);
            i += 1;
        }
        k = 0;
        while k < ALPHABET_SIZE
            invariant
                k <= ALPHABET_SIZE,
                n == word@.len(),
                self.wf(),
                counts@.len() == ALPHABET_SIZE,
                forall|j: int|
                    0 <= j < ALPHABET_SIZE ==> #[trigger] counts@[j] == letter_count(
                        word@,
                        letter_at(j),
                    ),
                forall|j: int|
                    0 <= j < k ==> (#[trigger] self.letter_frequencies@[j]).admits(
                        letter_count(word@, letter_at(j)),
                    ),
            decreases ALPHABET_SIZE - k,
        {
            let predicate = self.letter_frequencies[k];
            if !predicate.is_noop() && !predicate.matches(counts[k]) {
                proof {
                    let c = letter_at(k as int);
                    assert(is_letter(c) && letter_index(c) == k);
                    assert(!self@.letter_frequencies[c].admits(letter_count(word@, c)));
                }
                return false;
            }
            k += 1;
        }
        proof {
            assert forall|c: char| is_letter(c) implies (
            #[trigger] self@.letter_frequencies[c]).admits(letter_count(word@, c)) by {
                assert(letter_at(letter_index(c)) == c);
            }
        }
        true
    }

    /// Looks through the candidates again and keeps those that meet the
    /// constraints.
    pub fn _update_potential_solutions(&mut self)
        requires
            old(self).wf(),
        ensures
            final(self).wf(),
            final(self)@ == old(self)@.refresh(),
            final(self)@.settled(),
            final(self)@.possible_solutions.len() <= old(self)@.possible_solutions.len(),
    {
        let ghost before = self@;
        let ghost candidates = self@.possible_solutions;
        let total = self.possible_solutions.len();
        let mut kept: Vec<String> = Vec::new();
        let mut i: usize = 0;
        while i < total
            invariant
                i <= total,
                total == candidates.len(),
                self.wf(),
                self@ == before,
                candidates == before.possible_solutions,
                words_of(kept@) == candidates.take(i as int).filter(before.fitting()),
            decreases total - i,
        {
            let fits = self._word_fits(self.possible_solutions[i].as_str());
            proof {
                assert(candidates.take(i + 1) =~= candidates.take(i as int).push(
                    candidates[i as int],
                ));
                candidates.take(i as int).lemma_filter_push(candidates[i as int], before.fitting());
            }
            if fits {
                let ghost kept_before = kept@;
                kept.push(self.possible_solutions[i].clone());
                assert(words_of(kept@) =~= words_of(kept_before).push(candidates[i as int]));
            }
            i += 1;
        }
        proof {
            assert(candidates.take(total as int) =~= candidates);
            before.lemma_refresh_keeps_fitting();
        }
        self.possible_solutions = kept;
        proof {
            assert(self@.possible_solutions == before.refresh().possible_solutions);
            assert(self@.letter_frequencies =~= before.letter_frequencies);
            assert(self@.possible_letters =~= before.possible_letters);
        }
    }

    /// Takes in the feedback for a guess: records it in the constraints and
    /// keeps the candidates that meet them.
    ///
    /// What is known only grows: no candidate comes back, no letter becomes
    /// possible again at a position, and no bound on a letter loosens.
    pub fn update(&mut self, guess: GuessOutcome)
        requires
            old(self).wf(),
            old(self)@.accepts(guess@),
        ensures
            final(self).wf(),
            final(self)@ == old(self)@.constrain(guess@).refresh(),
            !final(self)@.is_initial_state,
            final(self)@.settled(),
            final(self)@.possible_solutions.len() <= old(self)@.possible_solutions.len(),
            forall|c: char|
                is_letter(c) ==> (#[trigger] final(self)@.letter_frequencies[c]).tightens(
                    old(self)@.letter_frequencies[c],
                ),
            forall|i: int|
                0 <= i < WORD_LENGTH ==> (#[trigger] final(self)@.possible_letters[i]).subset_of(
                    old(self)@.possible_letters[i],
                ),
    {
        proof {
            old(self).lemma_wf_view();
            old(self)@.lemma_constrain_tightens(guess@);
        }
        self._update_state(guess);
        self._update_potential_solutions();
    }

    /// Plays one turn with the feedback for the guess: a feedback that wins
    /// ends the game, one that cannot be taken in is rejected, and any other
    /// is recorded as `update` does.
    pub fn take_turn(&mut self, guess: GuessOutcome) -> (progress: Progress)
        requires
            old(self).wf(),
        ensures
            final(self).wf(),
            progress == old(self)@.progress(guess@),
            final(self)@ == old(self)@.after_turn(guess@),
    {
        if guess.is_win() {
            return Progress::Won;
        }
        if !self.accepts(&guess) {
            return Progress::Rejected;
        }
        self.update(guess);
        if self.is_exhausted() {
            Progress::Exhausted
        } else {
            Progress::Narrowed
        }
    }

    /// Tells whether a feedback can be taken in: see `GameStateView::accepts`.
    pub fn accepts(&self, outcome: &GuessOutcome) -> (r: bool)
        requires
            self.wf(),
        ensures
            r == self@.accepts(outcome@),
    {
        let n = outcome.letters.len();
        if n > WORD_LENGTH {
            return false;
        }
        let mut i: usize = 0;
        while i < n
            invariant
                i <= n,
                n == outcome@.len(),
                n <= WORD_LENGTH,
                self.wf(),
                forall|j: int| 0 <= j < i ==> is_letter((#[trigger] outcome@[j]).0),
                forall|j: int|
                    0 <= j < i && (#[trigger] outcome@[j]).1 == LetterOutcome::Correct
                        ==> self@.possible_letters[j].contains(outcome@[j].0),
            decreases n - i,
        {
            let letter = outcome.letters[i].0;
            let classification = outcome.letters[i].1;
            if !is_letter_char(letter) {
                assert(!is_letter(outcome@[i as int].0));
                return false;
            }
            if classification == LetterOutcome::Correct && !self.possible_letters[i].contains(
                letter,
            ) {
                assert(outcome@[i as int].1 == LetterOutcome::Correct
                    && !self@.possible_letters[i as int].contains(outcome@[i as int].0));
                return false;
            }
            i += 1;
        }
        true
    }

    /// The candidate solutions that are left.
    pub fn possible_solutions(&self) -> (candidates: &Vec<String>)
        ensures
            words_of(candidates@) == self@.possible_solutions,
    {
        &self.possible_solutions
    }

    /// Tells whether no feedback has been taken in yet.
    pub fn is_initial_state(&self) -> (r: bool)
        ensures
            r == self@.is_initial_state,
    {
        self.is_initial_state
    }

    /// Tells whether no candidate is left.
    pub fn is_exhausted(&self) -> (r: bool)
        ensures
            r == self@.exhausted(),
    {
        self.possible_solutions.len() == 0
    }

    /// The bounds known for a letter.
    pub fn letter_frequency(&self, letter: char) -> (predicate: FrequencyPredicate)
        requires
            self.wf(),
            is_letter(letter),
        ensures
            predicate == self@.letter_frequencies[letter],
    {
        self.letter_frequencies[index_of_letter(letter)]
    }

    /// Tells whether a letter is still possible at a position.
    pub fn is_possible_letter(&self, position: usize, letter: char) -> (r: bool)
        requires
            self.wf(),
            position < WORD_LENGTH,
        ensures
            r == self@.possible_letters[position as int].contains(letter),
    {
        self.possible_letters[position].contains(letter)
    }

    /// Computes the information gain of guessing `word` when the solution is
    /// one of `potential_solutions`, times the number of those.
    pub fn calculate_information_gain(
        &self,
        word: &str,
        potential_solutions: &Vec<String>,
    ) -> (gain: u128)
        requires
            word@.len() <= WORD_LENGTH,
        ensures
            gain == scaled_gain(word@, words_of(potential_solutions@)),
    {
        let candidates = letters_of_list(potential_solutions);
        scaled_gain_of(&chars_of(word), &candidates)
    }

    /// Proposes the next guess.
    ///
    /// Before any feedback this is the opening guess. With one candidate
    /// left it is that candidate. Otherwise it is the word of the
    /// dictionary with the greatest information gain over the candidates,
    /// and among several such words the first.
    pub fn calculate_best_guess(&self) -> (guess: &str)
        requires
            self.wf(),
        ensures
            guess@ == self@.best_guess(),
            is_word(guess@),
            self@.is_initial_state ==> guess@ == opening_word(),
            !self@.is_initial_state && self@.possible_solutions.len() == 1 ==> guess@
                == self@.possible_solutions[0],
            !self@.is_initial_state && self@.possible_solutions.len() != 1 ==> exists|k: int|
                #[trigger] is_first_best(self@.dictionary, self@.possible_solutions, k) && guess@
                    == self@.dictionary[k],
    {
        proof {
            self@.lemma_best_guess_is_word();
        }
        if self.is_initial_state {
            proof {
                lemma_opening_word();
            }
            return BEST_FIRST_GUESS;
        }
        if self.possible_solutions.len() == 1 {
            return self.possible_solutions[0].as_str();
        }
        let candidates = letters_of_list(&self.possible_solutions);
        proof {
            assert forall|j: int| 0 <= j < self.dictionary@.len() implies (
            #[trigger] self.dictionary@[j])@.len() <= WORD_LENGTH by {
                assert(is_word(self@.dictionary[j]));
            }
        }
        let best = best_guess_index(self.dictionary, &candidates);
        proof {
            lemma_first_best_unique(self@.dictionary, self@.possible_solutions, best as int);
        }
        self.dictionary[best].as_str()
    }

    /// Renders the candidates as text: the words, separated by commas.
    pub fn _possible_solutions_summary(&self) -> (text: String)
        ensures
            text@ == self@.possible_solutions_summary(),
    {
        comma_separated(&self.possible_solutions)
    }

    /// Renders the state as text: the number of candidates, then the
    /// candidates in square brackets.
    pub fn summary(&self) -> (text: String)
        ensures
            text@ == self@.summary(),
    {
        let mut text = decimal_string(self.possible_solutions.len());
        text.append(" possible solutions: [");
        text.append(self._possible_solutions_summary().as_str());
        text.append("]");
        text
    }
}

} // verus!
