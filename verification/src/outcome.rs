//! The feedback given for a guess: one classification per letter.

use vstd::prelude::*;
use crate::alphabet::WORD_LENGTH;

verus! {

/// How one letter of a guess relates to the solution.
#[derive(Clone, Copy, Debug, PartialEq, Eq, Hash, Structural)]
pub enum LetterOutcome {
    /// Green: the solution has this letter at this position.
    Correct,
    /// Yellow: the solution has this letter at another position.
    Present,
    /// Black: the solution has no further occurrence of this letter.
    Absent,
}

/// The symbols in which feedback is written: `G`, `Y` and `B`.
pub open spec fn is_outcome_symbol(c: char) -> bool {
    c == 'G' || c == 'Y' || c == 'B'
}

/// The classification a feedback symbol stands for.
pub open spec fn outcome_of_symbol(c: char) -> LetterOutcome {
    if c == 'G' {
        LetterOutcome::Correct
    } else if c == 'Y' {
        LetterOutcome::Present
    } else {
        LetterOutcome::Absent
    }
}

/// Feedback for a whole guess is written as exactly `WORD_LENGTH` symbols.
pub open spec fn is_outcome_encoding(s: Seq<char>) -> bool {
    &&& s.len() == WORD_LENGTH
    &&& forall|i: int| 0 <= i < s.len() ==> is_outcome_symbol(#[trigger] s[i])
}

/// The feedback that `symbols` encodes for the letters of `word`, position by
/// position, as far as both reach.
pub open spec fn parsed_outcome(word: Seq<char>, symbols: Seq<char>) -> Seq<(char, LetterOutcome)> {
    Seq::new(
        if word.len() <= symbols.len() { word.len() } else { symbols.len() },
        |i: int| (word[i], outcome_of_symbol(symbols[i])),
    )
}

/// The classifications of a feedback with the letters left out.
pub open spec fn signature_of(outcome: Seq<(char, LetterOutcome)>) -> Seq<LetterOutcome> {
    Seq::new(outcome.len(), |i: int| outcome[i].1)
}

/// A feedback wins when every letter is `Correct`.
pub open spec fn is_winning(outcome: Seq<(char, LetterOutcome)>) -> bool {
    forall|i: int| 0 <= i < outcome.len() ==> (#[trigger] outcome[i]).1 == LetterOutcome::Correct
}

/// Number of entries among the first `n` that hold letter `c` and are not `Absent`.
pub open spec fn non_absent_upto(outcome: Seq<(char, LetterOutcome)>, c: char, n: int) -> nat
    decreases n,
{
    if n <= 0 {
        0
    } else {
        non_absent_upto(outcome, c, n - 1) + if outcome[n - 1].0 == c && outcome[n - 1].1
            != LetterOutcome::Absent {
            1nat
        } else {
            0nat
        }
    }
}

/// Number of entries among the first `n` that hold letter `c` and are `Absent`.
pub open spec fn absent_upto(outcome: Seq<(char, LetterOutcome)>, c: char, n: int) -> nat
    decreases n,
{
    if n <= 0 {
        0
    } else {
        absent_upto(outcome, c, n - 1) + if outcome[n - 1].0 == c && outcome[n - 1].1
            == LetterOutcome::Absent {
            1nat
        } else {
            0nat
        }
    }
}

/// Number of entries among the first `n` that hold letter `c`, are not
/// `Absent`, and come before every `Absent` entry of `c`.
pub open spec fn leading_non_absent_upto(
    outcome: Seq<(char, LetterOutcome)>,
    c: char,
    n: int,
) -> nat
    decreases n,
{
    if n <= 0 {
        0
    } else if absent_upto(outcome, c, n - 1) == 0 && outcome[n - 1].0 == c && outcome[n - 1].1
        != LetterOutcome::Absent {
        leading_non_absent_upto(outcome, c, n - 1) + 1
    } else {
        leading_non_absent_upto(outcome, c, n - 1)
    }
}

/// Number of occurrences of letter `c` that the feedback does not mark `Absent`.
pub open spec fn non_absent_count(outcome: Seq<(char, LetterOutcome)>, c: char) -> nat {
    non_absent_upto(outcome, c, outcome.len() as int)
}

/// Number of occurrences of letter `c` that the feedback marks `Absent`.
pub open spec fn absent_count(outcome: Seq<(char, LetterOutcome)>, c: char) -> nat {
    absent_upto(outcome, c, outcome.len() as int)
}

/// Number of occurrences of letter `c` not marked `Absent` that precede the
/// first occurrence marked `Absent` (all of them, if none is).
pub open spec fn leading_non_absent_count(outcome: Seq<(char, LetterOutcome)>, c: char) -> nat {
    leading_non_absent_upto(outcome, c, outcome.len() as int)
}

/// Each of the three counts is bounded by the number of entries counted, and
/// the leading count by the count of all non-absent entries; without an
/// `Absent` entry the two agree.
pub proof fn lemma_count_bounds(outcome: Seq<(char, LetterOutcome)>, c: char, n: int)
    requires
        0 <= n,
    ensures
        non_absent_upto(outcome, c, n) + absent_upto(outcome, c, n) <= n,
        leading_non_absent_upto(outcome, c, n) <= non_absent_upto(outcome, c, n),
        absent_upto(outcome, c, n) == 0 ==> leading_non_absent_upto(outcome, c, n)
            == non_absent_upto(outcome, c, n),
    decreases n,
{
    if n > 0 {
        lemma_count_bounds(outcome, c, n - 1);
    }
}

impl LetterOutcome {
    /// Reads one feedback symbol.
    pub fn parse(outcome_char: char) -> (outcome: LetterOutcome)
        requires
            is_outcome_symbol(outcome_char),
        ensures
            outcome == outcome_of_symbol(outcome_char),
    {
        if outcome_char == 'G' {
            LetterOutcome::Correct
        } else if outcome_char == 'Y' {
            LetterOutcome::Present
        } else {
            LetterOutcome::Absent
        }
    }
}

/// The feedback for one guess: each letter of the guess with its classification.
#[derive(Debug, PartialEq, Eq)]
pub struct GuessOutcome {
    pub letters: Vec<(char, LetterOutcome)>,
}

impl View for GuessOutcome {
    type V = Seq<(char, LetterOutcome)>;

    open spec fn view(&self) -> Seq<(char, LetterOutcome)> {
        self.letters@
    }
}

impl GuessOutcome {
    /// Tells whether a string is a well-formed feedback: exactly `WORD_LENGTH`
    /// symbols, each `G`, `Y` or `B`.
    pub fn is_valid_encoding(outcome_str: &str) -> (r: bool)
        ensures
            r == is_outcome_encoding(outcome_str@),
    {
        if outcome_str.unicode_len() != WORD_LENGTH {
            return false;
        }
        let mut i: usize = 0;
        while i < WORD_LENGTH
            invariant
                i <= WORD_LENGTH,
                outcome_str@.len() == WORD_LENGTH,
                forall|j: int| 0 <= j < i ==> is_outcome_symbol(#[trigger] outcome_str@[j]),
            decreases WORD_LENGTH - i,
        {
            let c = outcome_str.get_char(i);
            if !(c == 'G' || c == 'Y' || c == 'B') {
                return false;
            }
            i += 1;
        }
        true
    }

    /// Pairs the letters of `word` with the classifications that `outcome_str`
    /// encodes, position by position, as far as both strings reach.
    pub fn parse(word: &str, outcome_str: &str) -> (outcome: GuessOutcome)
        requires
            forall|i: int|
                0 <= i < word@.len() && i < outcome_str@.len() ==> is_outcome_symbol(
                    #[trigger] outcome_str@[i],
                ),
        ensures
            outcome@ == parsed_outcome(word@, outcome_str@),
    {
        let word_len = word.unicode_len();
        let outcome_len = outcome_str.unicode_len();
        let n = if word_len <= outcome_len { word_len } else { outcome_len };
        let mut letters: Vec<(char, LetterOutcome)> = Vec::new();
        let mut i: usize = 0;
        while i < n
            invariant
                i <= n,
                n <= word@.len(),
                n <= outcome_str@.len(),
                n == parsed_outcome(word@, outcome_str@).len(),
                forall|j: int| 0 <= j < n ==> is_outcome_symbol(#[trigger] outcome_str@[j]),
                letters@.len() == i,
                forall|j: int|
                    0 <= j < i ==> letters@[j] == parsed_outcome(word@, outcome_str@)[j],
            decreases n - i,
        {
            letters.push((word.get_char(i), LetterOutcome::parse(outcome_str.get_char(i))));
            i += 1;
        }
        assert(letters@ =~= parsed_outcome(word@, outcome_str@));
        GuessOutcome { letters }
    }

    /// The classifications alone, in the order of the letters.
    pub fn letter_outcomes(&self) -> (signature: Vec<LetterOutcome>)
        ensures
            signature@ == signature_of(self@),
    {
        let mut signature: Vec<LetterOutcome> = Vec::new();
        let mut i: usize = 0;
        while i < self.letters.len()
            invariant
                i <= self.letters.len(),
                signature@.len() == i,
                forall|j: int| 0 <= j < i ==> signature@[j] == self@[j].1,
            decreases self.letters.len() - i,
        {
            signature.push(self.letters[i].1);
            i += 1;
        }
        assert(signature@ =~= signature_of(self@));
        signature
    }

    /// Tells whether every letter is `Correct`.
    pub fn is_win(&self) -> (r: bool)
        ensures
            r == is_winning(self@),
    {
        let mut i: usize = 0;
        while i < self.letters.len()
            invariant
                i <= self.letters.len(),
                forall|j: int| 0 <= j < i ==> (#[trigger] self@[j]).1 == LetterOutcome::Correct,
            decreases self.letters.len() - i,
        {
            if self.letters[i].1 != LetterOutcome::Correct {
                return false;
            }
            i += 1;
        }
        true
    }
}

} // verus!
