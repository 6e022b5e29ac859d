//! Scoring of guesses: how many candidates a guess is expected to eliminate.
//!
//! A guess splits the candidates into groups, one for each feedback pattern
//! that a candidate would answer with. If the solution lies in a group of
//! `n` out of `total` candidates, which it does with probability
//! `n / total`, the feedback eliminates the other `total - n`. The
//! information gain of the guess is the expected number of eliminations, the
//! sum of `(total - n) * n / total` over the groups. Guesses are ranked by
//! `total` times that value, `scaled_gain`, which is a whole number and
//! orders the guesses in the same way.

use vstd::prelude::*;
use crate::alphabet::{chars_of, words_of, WORD_LENGTH};
use crate::evaluate::{classify, evaluation};
use crate::outcome::{signature_of, LetterOutcome};

verus! {

/// Number of feedback patterns for a word: three to the power `WORD_LENGTH`.
pub const NUM_PATTERNS: usize = 243;

/// The digit that stands for a classification in the number of a pattern.
pub open spec fn outcome_digit(outcome: LetterOutcome) -> nat {
    match outcome {
        LetterOutcome::Correct => 0,
        LetterOutcome::Present => 1,
        LetterOutcome::Absent => 2,
    }
}

/// The number of a feedback pattern: its classifications read as the digits
/// of a number in base three, the first one most significant.
pub open spec fn pattern_index(signature: Seq<LetterOutcome>) -> nat
    decreases signature.len(),
{
    if signature.len() == 0 {
        0
    } else {
        3 * pattern_index(signature.drop_last()) + outcome_digit(signature.last())
    }
}

/// Three to the power `n`.
pub open spec fn pow3(n: nat) -> nat
    decreases n,
{
    if n == 0 {
        1
    } else {
        3 * pow3((n - 1) as nat)
    }
}

/// The patterns of `n` classifications have the numbers below `pow3(n)`.
pub proof fn lemma_pattern_index_bound(signature: Seq<LetterOutcome>)
    ensures
        pattern_index(signature) < pow3(signature.len()),
        signature.len() <= WORD_LENGTH ==> pattern_index(signature) < NUM_PATTERNS,
    decreases signature.len(),
{
    if signature.len() > 0 {
        lemma_pattern_index_bound(signature.drop_last());
    }
    reveal_with_fuel(pow3, 6);
}

/// Patterns of the same length with the same number are the same pattern,
/// so grouping candidates by the number groups them by the pattern.
pub proof fn lemma_pattern_index_injective(a: Seq<LetterOutcome>, b: Seq<LetterOutcome>)
    requires
        a.len() == b.len(),
        pattern_index(a) == pattern_index(b),
    ensures
        a == b,
    decreases a.len(),
{
    if a.len() > 0 {
        lemma_pattern_index_injective(a.drop_last(), b.drop_last());
        assert(a =~= a.drop_last().push(a.last()));
        assert(b =~= b.drop_last().push(b.last()));
    } else {
        assert(a =~= b);
    }
}

/// The number of the pattern that `candidate` answers `word` with.
pub open spec fn pattern_of(word: Seq<char>, candidate: Seq<char>) -> nat {
    pattern_index(signature_of(evaluation(word, candidate)))
}

/// Number of candidates among the first `n` that answer `word` with the
/// pattern of number `pattern`.
pub open spec fn group_size_upto(
    word: Seq<char>,
    candidates: Seq<Seq<char>>,
    pattern: nat,
    n: int,
) -> nat
    decreases n,
{
    if n <= 0 {
        0
    } else {
        group_size_upto(word, candidates, pattern, n - 1) + if pattern_of(word, candidates[n - 1])
            == pattern {
            1nat
        } else {
            0nat
        }
    }
}

/// Number of candidates that answer `word` with the pattern of number
/// `pattern`.
pub open spec fn group_size(word: Seq<char>, candidates: Seq<Seq<char>>, pattern: nat) -> nat {
    group_size_upto(word, candidates, pattern, candidates.len() as int)
}

/// The sum, over the patterns with a number below `patterns`, of the size of
/// the group times the number of candidates outside the group.
pub open spec fn eliminations_upto(
    word: Seq<char>,
    candidates: Seq<Seq<char>>,
    patterns: int,
) -> nat
    decreases patterns,
{
    if patterns <= 0 {
        0
    } else {
        let size = group_size(word, candidates, (patterns - 1) as nat);
        eliminations_upto(word, candidates, patterns - 1) + size * (candidates.len() - size) as nat
    }
}

/// The information gain of `word` over `candidates`, times the number of
/// candidates.
pub open spec fn scaled_gain(word: Seq<char>, candidates: Seq<Seq<char>>) -> nat {
    eliminations_upto(word, candidates, NUM_PATTERNS as int)
}

/// Entry `k` of the dictionary has the greatest gain, and is the first entry
/// that has it.
pub open spec fn is_first_best(
    dictionary: Seq<Seq<char>>,
    candidates: Seq<Seq<char>>,
    k: int,
) -> bool {
    &&& 0 <= k < dictionary.len()
    &&& forall|j: int|
        0 <= j < dictionary.len() ==> scaled_gain(#[trigger] dictionary[j], candidates)
            <= scaled_gain(dictionary[k], candidates)
    &&& forall|j: int|
        0 <= j < k ==> scaled_gain(#[trigger] dictionary[j], candidates) < scaled_gain(
            dictionary[k],
            candidates,
        )
}

/// The index of the first entry of the dictionary with the greatest gain.
pub open spec fn first_best_index(dictionary: Seq<Seq<char>>, candidates: Seq<Seq<char>>) -> int {
    choose|k: int| is_first_best(dictionary, candidates, k)
}

/// Among the first `n` entries of the dictionary, entry `k` has the
/// greatest gain and is the first that has it.
spec fn is_first_best_upto(
    dictionary: Seq<Seq<char>>,
    candidates: Seq<Seq<char>>,
    n: int,
    k: int,
) -> bool {
    &&& 0 <= k < n
    &&& forall|j: int|
        0 <= j < n ==> scaled_gain(#[trigger] dictionary[j], candidates) <= scaled_gain(
            dictionary[k],
            candidates,
        )
    &&& forall|j: int|
        0 <= j < k ==> scaled_gain(#[trigger] dictionary[j], candidates) < scaled_gain(
            dictionary[k],
            candidates,
        )
}

/// Going through the first `n` entries and keeping an entry only when its
/// gain is greater than that of the one kept so far finds such an entry.
proof fn lemma_first_best_upto(
    dictionary: Seq<Seq<char>>,
    candidates: Seq<Seq<char>>,
    n: int,
) -> (k: int)
    requires
        0 < n <= dictionary.len(),
    ensures
        is_first_best_upto(dictionary, candidates, n, k),
    decreases n,
{
    if n == 1 {
        0
    } else {
        let earlier = lemma_first_best_upto(dictionary, candidates, n - 1);
        if scaled_gain(dictionary[n - 1], candidates) > scaled_gain(
            dictionary[earlier],
            candidates,
        ) {
            n - 1
        } else {
            earlier
        }
    }
}

/// A dictionary that is not empty has a first entry with the greatest gain.
pub proof fn lemma_first_best_exists(dictionary: Seq<Seq<char>>, candidates: Seq<Seq<char>>)
    requires
        dictionary.len() > 0,
    ensures
        is_first_best(dictionary, candidates, first_best_index(dictionary, candidates)),
{
    let k = lemma_first_best_upto(dictionary, candidates, dictionary.len() as int);
    assert(is_first_best(dictionary, candidates, k));
}

/// Only one entry is the first with the greatest gain.
pub proof fn lemma_first_best_unique(
    dictionary: Seq<Seq<char>>,
    candidates: Seq<Seq<char>>,
    k: int,
)
    requires
        is_first_best(dictionary, candidates, k),
    ensures
        first_best_index(dictionary, candidates) == k,
{
    let chosen = first_best_index(dictionary, candidates);
    assert(is_first_best(dictionary, candidates, chosen));
    let gain_of_chosen = scaled_gain(dictionary[chosen], candidates);
    let gain_of_k = scaled_gain(dictionary[k], candidates);
    if chosen < k {
        assert(gain_of_chosen < gain_of_k);
        assert(gain_of_k <= gain_of_chosen);
    } else if k < chosen {
        assert(gain_of_k < gain_of_chosen);
        assert(gain_of_chosen <= gain_of_k);
    }
}

/// Number of candidates among the first `n` whose pattern has a number
/// below `patterns`.
spec fn covered(word: Seq<char>, candidates: Seq<Seq<char>>, n: int, patterns: int) -> nat
    decreases patterns,
{
    if patterns <= 0 {
        0
    } else {
        covered(word, candidates, n, patterns - 1) + group_size_upto(
            word,
            candidates,
            (patterns - 1) as nat,
            n,
        )
    }
}

/// One more candidate is one more in the groups, if its pattern is among
/// those counted.
proof fn lemma_covered_step(word: Seq<char>, candidates: Seq<Seq<char>>, n: int, patterns: int)
    requires
        n > 0,
    ensures
        covered(word, candidates, n, patterns) == covered(word, candidates, n - 1, patterns)
            + if pattern_of(word, candidates[n - 1]) < patterns {
            1nat
        } else {
            0nat
        },
    decreases patterns,
{
    if patterns > 0 {
        lemma_covered_step(word, candidates, n, patterns - 1);
    }
}

/// The groups are disjoint: together they hold no more than all candidates.
proof fn lemma_covered_bound(word: Seq<char>, candidates: Seq<Seq<char>>, n: int, patterns: int)
    requires
        0 <= n,
    ensures
        covered(word, candidates, n, patterns) <= n,
    decreases n, patterns,
{
    if n > 0 {
        lemma_covered_step(word, candidates, n, patterns);
        lemma_covered_bound(word, candidates, n - 1, patterns);
    } else if patterns > 0 {
        lemma_covered_bound(word, candidates, n, patterns - 1);
    }
}

/// A group among the first `n` candidates has at most `n` members.
proof fn lemma_group_size_bound(
    word: Seq<char>,
    candidates: Seq<Seq<char>>,
    pattern: nat,
    n: int,
)
    requires
        0 <= n,
    ensures
        group_size_upto(word, candidates, pattern, n) <= n,
    decreases n,
{
    if n > 0 {
        lemma_group_size_bound(word, candidates, pattern, n - 1);
    }
}

/// A sum of group sizes times candidates outside the group stays below the
/// number of candidates times the number of candidates in those groups.
proof fn lemma_eliminations_bound(word: Seq<char>, candidates: Seq<Seq<char>>, patterns: int)
    ensures
        eliminations_upto(word, candidates, patterns) <= candidates.len() * covered(
            word,
            candidates,
            candidates.len() as int,
            patterns,
        ),
        eliminations_upto(word, candidates, patterns) <= candidates.len() * candidates.len(),
    decreases patterns,
{
    let total = candidates.len() as int;
    lemma_covered_bound(word, candidates, total, patterns);
    let reach = covered(word, candidates, total, patterns) as int;
    if patterns > 0 {
        lemma_eliminations_bound(word, candidates, patterns - 1);
        let size = group_size(word, candidates, (patterns - 1) as nat) as int;
        let before = covered(word, candidates, total, patterns - 1) as int;
        lemma_group_size_bound(word, candidates, (patterns - 1) as nat, total);
        assert(size * (total - size) <= total * size) by (nonlinear_arith)
            requires
                0 <= size <= total,
        ;
        assert(total * before + total * size == total * (before + size)) by (nonlinear_arith);
    }
    assert(total * reach <= total * total) by (nonlinear_arith)
        requires
            0 <= reach <= total,
    ;
}

/// The scaled gain never exceeds the square of the number of candidates.
pub proof fn lemma_scaled_gain_bound(word: Seq<char>, candidates: Seq<Seq<char>>)
    ensures
        scaled_gain(word, candidates) <= candidates.len() * candidates.len(),
{
    lemma_eliminations_bound(word, candidates, NUM_PATTERNS as int);
}

/// The sum, over the patterns with a number below `patterns`, of the
/// square of the size of the group.
pub open spec fn squares_upto(word: Seq<char>, candidates: Seq<Seq<char>>, patterns: int) -> nat
    decreases patterns,
{
    if patterns <= 0 {
        0
    } else {
        let size = group_size(word, candidates, (patterns - 1) as nat);
        squares_upto(word, candidates, patterns - 1) + size * size
    }
}

/// Every candidate is in one of the groups when the guess is no longer than
/// a word.
proof fn lemma_all_covered(word: Seq<char>, candidates: Seq<Seq<char>>, n: int)
    requires
        word.len() <= WORD_LENGTH,
        0 <= n,
    ensures
        covered(word, candidates, n, NUM_PATTERNS as int) == n,
    decreases n,
{
    if n > 0 {
        lemma_all_covered(word, candidates, n - 1);
        lemma_covered_step(word, candidates, n, NUM_PATTERNS as int);
        lemma_pattern_index_bound(signature_of(evaluation(word, candidates[n - 1])));
    } else {
        lemma_covered_bound(word, candidates, 0, NUM_PATTERNS as int);
    }
}

/// Group by group, the candidates outside the group and those inside add up
/// to all candidates.
proof fn lemma_eliminations_and_squares(
    word: Seq<char>,
    candidates: Seq<Seq<char>>,
    patterns: int,
)
    ensures
        eliminations_upto(word, candidates, patterns) + squares_upto(word, candidates, patterns)
            == candidates.len() * covered(word, candidates, candidates.len() as int, patterns),
    decreases patterns,
{
    let total = candidates.len() as int;
    if patterns > 0 {
        lemma_eliminations_and_squares(word, candidates, patterns - 1);
        let size = group_size(word, candidates, (patterns - 1) as nat) as int;
        let before = covered(word, candidates, total, patterns - 1) as int;
        lemma_group_size_bound(word, candidates, (patterns - 1) as nat, total);
        assert(size * (total - size) + size * size == total * size) by (nonlinear_arith);
        assert(total * before + total * size == total * (before + size)) by (nonlinear_arith);
    } else {
        assert(total * 0 == 0);
    }
}

/// The scaled gain written the other way: the square of the number of
/// candidates less the squares of the sizes of the groups. Divided by the
/// square of the number of candidates, the squares of the sizes are the
/// squares of the probabilities of the patterns.
pub proof fn lemma_scaled_gain_by_squares(word: Seq<char>, candidates: Seq<Seq<char>>)
    requires
        word.len() <= WORD_LENGTH,
    ensures
        scaled_gain(word, candidates) + squares_upto(word, candidates, NUM_PATTERNS as int)
            == candidates.len() * candidates.len(),
{
    lemma_eliminations_and_squares(word, candidates, NUM_PATTERNS as int);
    lemma_all_covered(word, candidates, candidates.len() as int);
}

/// The entries of a list of words, each as its sequence of letters.
pub open spec fn letters_of(list: Seq<Vec<char>>) -> Seq<Seq<char>> {
    Seq::new(list.len(), |i: int| list[i]@)
}

/// The words of a list of strings, each as a vector of letters.
pub fn letters_of_list(list: &Vec<String>) -> (letters: Vec<Vec<char>>)
    ensures
        letters_of(letters@) == words_of(list@),
{
    let mut letters: Vec<Vec<char>> = Vec::new();
    let mut i: usize = 0;
    while i < list.len()
        invariant
            i <= list@.len(),
            letters@.len() == i,
            forall|j: int| 0 <= j < i ==> (#[trigger] letters@[j])@ == list@[j]@,
        decreases list@.len() - i,
    {
        letters.push(chars_of(list[i].as_str()));
        i += 1;
    }
    assert(letters_of(letters@) =~= words_of(list@));
    letters
}

/// Computes the number of a feedback pattern.
pub fn pattern_index_of(signature: &Vec<LetterOutcome>) -> (index: usize)
    requires
        signature@.len() <= WORD_LENGTH,
    ensures
        index == pattern_index(signature@),
        index < NUM_PATTERNS,
{
    let mut index: usize = 0;
    let mut i: usize = 0;
    while i < signature.len()
        invariant
            i <= signature@.len(),
            signature@.len() <= WORD_LENGTH,
            index == pattern_index(signature@.take(i as int)),
            index < NUM_PATTERNS,
        decreases signature@.len() - i,
    {
        let digit: usize = match signature[i] {
            LetterOutcome::Correct => 0,
            LetterOutcome::Present => 1,
            LetterOutcome::Absent => 2,
        };
        proof {
            let longer = signature@.take(i + 1);
            assert(longer.drop_last() =~= signature@.take(i as int));
            assert(longer.last() == signature@[i as int]);
            lemma_pattern_index_bound(longer);
        }
        index = 3 * index + digit;
        i += 1;
    }
    assert(signature@.take(signature@.len() as int) =~= signature@);
    index
}

/// Computes the scaled gain of a guess over a list of candidates.
pub fn scaled_gain_of(word: &Vec<char>, candidates: &Vec<Vec<char>>) -> (gain: u128)
    requires
        word@.len() <= WORD_LENGTH,
    ensures
        gain == scaled_gain(word@, letters_of(candidates@)),
{
    let ghost list = letters_of(candidates@);
    let total = candidates.len();
    let mut sizes: Vec<usize> = Vec::new();
    let mut p: usize = 0;
    while p < NUM_PATTERNS
        invariant
            p <= NUM_PATTERNS,
            sizes@.len() == p,
            forall|q: int| 0 <= q < p ==> sizes@[q] == 0,
        decreases NUM_PATTERNS - p,
    {
        sizes.push(0);
        p += 1;
    }
    let mut k: usize = 0;
    while k < total
        invariant
            k <= total,
            total == candidates@.len(),
            list == letters_of(candidates@),
            word@.len() <= WORD_LENGTH,
            sizes@.len() == NUM_PATTERNS,
            forall|q: int|
                0 <= q < NUM_PATTERNS ==> #[trigger] sizes@[q] == group_size_upto(
                    word@,
                    list,
                    q as nat,
                    k as int,
                ),
        decreases total - k,
    {
        let results = classify(word, &candidates[k]);
        let pattern = pattern_index_of(&results);
        proof {
            lemma_group_size_bound(word@, list, pattern as nat, k as int);
        }
        let size = sizes[pattern];
        sizes.set(pattern, size + 1);
        k += 1;
    }
    let mut gain: u128 = 0;
    p = 0;
    while p < NUM_PATTERNS
        invariant
            p <= NUM_PATTERNS,
            total == candidates@.len(),
            list == letters_of(candidates@),
            sizes@.len() == NUM_PATTERNS,
            forall|q: int|
                0 <= q < NUM_PATTERNS ==> #[trigger] sizes@[q] == group_size(
                    word@,
                    list,
                    q as nat,
                ),
            gain == eliminations_upto(word@, list, p as int),
        decreases NUM_PATTERNS - p,
    {
        let size = sizes[p];
        proof {
            lemma_group_size_bound(word@, list, p as nat, total as int);
            lemma_eliminations_bound(word@, list, p + 1);
            assert(total * total <= u128::MAX) by (nonlinear_arith)
                requires
                    0 <= total <= 0xffff_ffff_ffff_ffff,
            ;
        }
        gain = gain + (size as u128) * ((total - size) as u128);
        p += 1;
    }
    gain
}

/// Finds the first entry of the dictionary with the greatest gain.
pub fn best_guess_index(dictionary: &Vec<String>, candidates: &Vec<Vec<char>>) -> (best: usize)
    requires
        dictionary@.len() > 0,
        forall|j: int|
            0 <= j < dictionary@.len() ==> (#[trigger] dictionary@[j])@.len() <= WORD_LENGTH,
    ensures
        is_first_best(words_of(dictionary@), letters_of(candidates@), best as int),
{
    let ghost words = words_of(dictionary@);
    let ghost list = letters_of(candidates@);
    let mut best: usize = 0;
    let mut max_gain: u128 = scaled_gain_of(&chars_of(dictionary[0].as_str()), candidates);
    let mut k: usize = 1;
    while k < dictionary.len()
        invariant
            1 <= k <= dictionary@.len(),
            words == words_of(dictionary@),
            list == letters_of(candidates@),
            forall|j: int|
                0 <= j < dictionary@.len() ==> (#[trigger] dictionary@[j])@.len() <= WORD_LENGTH,
            best < k,
            max_gain == scaled_gain(words[best as int], list),
            forall|j: int|
                0 <= j < k ==> scaled_gain(#[trigger] words[j], list) <= max_gain,
            forall|j: int|
                0 <= j < best ==> scaled_gain(#[trigger] words[j], list) < max_gain,
        decreases dictionary@.len() - k,
    {
        let gain = scaled_gain_of(&chars_of(dictionary[k].as_str()), candidates);
        if gain > max_gain {
            best = k;
            max_gain = gain;
        }
        k += 1;
    }
    best
}

} // verus!
