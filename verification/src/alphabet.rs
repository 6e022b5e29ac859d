//! Letters, words, and sets of letters.

use vstd::prelude::*;

verus! {

/// Number of letters in every word of the game.
pub const WORD_LENGTH: usize = 5;

/// Number of letters in the alphabet the game is played with.
pub const ALPHABET_SIZE: usize = 26;

/// The letters of the game are the upper-case letters `A` to `Z`.
pub open spec fn is_letter(c: char) -> bool {
    'A' <= c && c <= 'Z'
}

/// Position of a letter in the alphabet, counting from zero.
pub open spec fn letter_index(c: char) -> int {
    c as int - 'A' as int
}

/// The letter at position `k` of the alphabet.
pub open spec fn letter_at(k: int) -> char {
    (k + 'A' as int) as char
}

/// Tells whether a character is one of the letters `A` to `Z`.
pub fn is_letter_char(c: char) -> (r: bool)
    ensures
        r == is_letter(c),
{
    'A' <= c && c <= 'Z'
}

/// Position of a letter in the alphabet, counting from zero.
pub fn index_of_letter(c: char) -> (k: usize)
    requires
        is_letter(c),
    ensures
        k == letter_index(c),
        k < ALPHABET_SIZE,
{
    (c as u32 - 'A' as u32) as usize
}

/// A word is a sequence of exactly `WORD_LENGTH` letters.
pub open spec fn is_word(w: Seq<char>) -> bool {
    &&& w.len() == WORD_LENGTH
    &&& forall|i: int| 0 <= i < w.len() ==> is_letter(#[trigger] w[i])
}

/// Tells whether a string is a word: exactly `WORD_LENGTH` letters `A` to `Z`.
pub fn is_valid_word(s: &str) -> (r: bool)
    ensures
        r == is_word(s@),
{
    if s.unicode_len() != WORD_LENGTH {
        return false;
    }
    let mut i: usize = 0;
    while i < WORD_LENGTH
        invariant
            i <= WORD_LENGTH,
            s@.len() == WORD_LENGTH,
            forall|j: int| 0 <= j < i ==> is_letter(#[trigger] s@[j]),
        decreases WORD_LENGTH - i,
    {
        if !is_letter_char(s.get_char(i)) {
            return false;
        }
        i += 1;
    }
    true
}

/// The words that a list of strings holds.
pub open spec fn words_of(list: Seq<String>) -> Seq<Seq<char>> {
    Seq::new(list.len(), |i: int| list[i]@)
}

/// Every entry of the list is a word.
pub open spec fn is_word_list(list: Seq<Seq<char>>) -> bool {
    forall|i: int| 0 <= i < list.len() ==> is_word(#[trigger] list[i])
}

/// Tells whether every entry of a list is a word.
pub fn is_valid_word_list(list: &Vec<String>) -> (r: bool)
    ensures
        r == is_word_list(words_of(list@)),
{
    let mut i: usize = 0;
    while i < list.len()
        invariant
            i <= list@.len(),
            forall|j: int| 0 <= j < i ==> is_word(#[trigger] words_of(list@)[j]),
        decreases list@.len() - i,
    {
        if !is_valid_word(list[i].as_str()) {
            assert(!is_word(words_of(list@)[i as int]));
            return false;
        }
        i += 1;
    }
    true
}

/// The characters of a string, as a vector.
pub fn chars_of(s: &str) -> (chars: Vec<char>)
    ensures
        chars@ == s@,
{
    let n = s.unicode_len();
    let mut chars: Vec<char> = Vec::new();
    let mut i: usize = 0;
    while i < n
        invariant
            i <= n,
            n == s@.len(),
            chars@ == s@.take(i as int),
        decreases n - i,
    {
        chars.push(s.get_char(i));
        assert(s@.take(i + 1) =~= s@.take(i as int).push(s@[i as int]));
        i += 1;
    }
    assert(s@.take(n as int) =~= s@);
    chars
}

/// Number of occurrences of `c` in `w`, counting the first `n` positions.
pub open spec fn letter_count_upto(w: Seq<char>, c: char, n: int) -> nat
    decreases n,
{
    if n <= 0 {
        0
    } else {
        letter_count_upto(w, c, n - 1) + if w[n - 1] == c {
            1nat
        } else {
            0nat
        }
    }
}

/// Number of occurrences of `c` in `w`.
pub open spec fn letter_count(w: Seq<char>, c: char) -> nat {
    letter_count_upto(w, c, w.len() as int)
}

/// A letter occurs among the first `n` positions at most `n` times.
pub proof fn lemma_letter_count_bound(word: Seq<char>, c: char, n: int)
    requires
        0 <= n,
    ensures
        letter_count_upto(word, c, n) <= n,
    decreases n,
{
    if n > 0 {
        lemma_letter_count_bound(word, c, n - 1);
    }
}

/// A set of letters, kept as one bit per letter.
#[derive(Clone, Copy, Debug)]
pub struct LetterSet {
    mask: u32,
}

/// Bit `k` of the mask is set.
spec fn bit_is_set(mask: u32, k: u32) -> bool {
    (mask >> k) & 1u32 == 1u32
}

impl View for LetterSet {
    type V = Set<char>;

    closed spec fn view(&self) -> Set<char> {
        Set::new(|c: char| is_letter(c) && bit_is_set(self.mask, letter_index(c) as u32))
    }
}

impl LetterSet {
    /// The set of all letters.
    pub fn full() -> (s: LetterSet)
        ensures
            forall|c: char| s@.contains(c) <==> is_letter(c),
    {
        let s = LetterSet { mask: 0x3ff_ffff };
        assert forall|c: char| s@.contains(c) <==> is_letter(c) by {
            if is_letter(c) {
                let k = letter_index(c) as u32;
                assert(bit_is_set(0x3ff_ffffu32, k)) by (bit_vector)
                    requires
                        k < 26,
                ;
            }
        }
        s
    }

    /// Tells whether the set holds the character.
    pub fn contains(&self, c: char) -> (r: bool)
        ensures
            r == self@.contains(c),
    {
        if !is_letter_char(c) {
            return false;
        }
        let k: u32 = c as u32 - 'A' as u32;
        (self.mask >> k) & 1u32 == 1u32
    }

    /// Takes a character out of the set.
    pub fn remove(&mut self, c: char)
        ensures
            final(self)@ == old(self)@.remove(c),
    {
        if is_letter_char(c) {
            let k: u32 = c as u32 - 'A' as u32;
            let before = self.mask;
            self.mask = before & !(1u32 << k);
            let after = self.mask;
            assert forall|d: char| self@.contains(d) <==> old(self)@.remove(c).contains(d) by {
                if is_letter(d) {
                    let j = letter_index(d) as u32;
                    assert(bit_is_set(after, j) <==> (bit_is_set(before, j) && j != k))
                        by (bit_vector)
                        requires
                            k < 26,
                            j < 26,
                            after == before & !(1u32 << k),
                    ;
                }
            }
        }
        assert(self@ =~= old(self)@.remove(c));
    }

    /// The set holding exactly one letter.
    pub fn only(c: char) -> (s: LetterSet)
        requires
            is_letter(c),
        ensures
            s@ == set![c],
    {
        let k: u32 = c as u32 - 'A' as u32;
        let s = LetterSet { mask: 1u32 << k };
        assert forall|d: char| s@.contains(d) <==> set![c].contains(d) by {
            if is_letter(d) {
                let j = letter_index(d) as u32;
                assert(bit_is_set(1u32 << k, j) <==> j == k) by (bit_vector)
                    requires
                        k < 26,
                        j < 26,
                ;
            }
        }
        assert(s@ =~= set![c]);
        s
    }
}

} // verus!
