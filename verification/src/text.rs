//! Rendering of numbers and word lists as text.

use vstd::prelude::*;
use vstd::string::StringExecFns;
use crate::alphabet::words_of;

verus! {

/// The character for a decimal digit.
pub open spec fn digit_char(d: nat) -> char {
    ('0' as int + d) as char
}

/// The decimal digits of a number, without leading zeros.
pub open spec fn decimal(n: nat) -> Seq<char>
    decreases n,
{
    if n < 10 {
        seq![digit_char(n)]
    } else {
        decimal(n / 10).push(digit_char(n % 10))
    }
}

/// The words of a list, with `separator` between each two neighbours.
pub open spec fn joined(words: Seq<Seq<char>>, separator: Seq<char>) -> Seq<char>
    decreases words.len(),
{
    if words.len() == 0 {
        Seq::empty()
    } else if words.len() == 1 {
        words[0]
    } else {
        joined(words.drop_last(), separator) + separator + words.last()
    }
}

/// The text between the entries of a rendered word list: a comma and a space.
pub open spec fn list_separator() -> Seq<char> {
    seq![',', ' ']
}

/// The text for one decimal digit.
fn digit_str(d: usize) -> (text: &'static str)
    requires
        d < 10,
    ensures
        text@ == seq![digit_char(d as nat)],
{
    proof {
        reveal_strlit("0");
        reveal_strlit("1");
        reveal_strlit("2");
        reveal_strlit("3");
        reveal_strlit("4");
        reveal_strlit("5");
        reveal_strlit("6");
        reveal_strlit("7");
        reveal_strlit("8");
        reveal_strlit("9");
    }
    let text = if d == 0 {
        "0"
    } else if d == 1 {
        "1"
    } else if d == 2 {
        "2"
    } else if d == 3 {
        "3"
    } else if d == 4 {
        "4"
    } else if d == 5 {
        "5"
    } else if d == 6 {
        "6"
    } else if d == 7 {
        "7"
    } else if d == 8 {
        "8"
    } else {
        "9"
    };
    assert(text@ =~= seq![digit_char(d as nat)]);
    text
}

/// Writes a number in decimal.
pub fn decimal_string(n: usize) -> (text: String)
    ensures
        text@ == decimal(n as nat),
    decreases n,
{
    if n < 10 {
        String::from_str(digit_str(n))
    } else {
        let mut text = decimal_string(n / 10);
        text.append(digit_str(n % 10));
        assert(text@ =~= decimal((n / 10) as nat).push(digit_char((n % 10) as nat)));
        text
    }
}

/// Writes the words of a list, separated by a comma and a space.
pub fn comma_separated(words: &Vec<String>) -> (text: String)
    ensures
        text@ == joined(words_of(words@), list_separator()),
{
    let ghost list = words_of(words@);
    let mut text = String::new();
    let mut i: usize = 0;
    while i < words.len()
        invariant
            i <= words@.len(),
            list == words_of(words@),
            text@ == joined(list.take(i as int), list_separator()),
        decreases words@.len() - i,
    {
        proof {
            reveal_strlit(", ");
            assert(", "@ =~= list_separator());
            let longer = list.take(i + 1);
            assert(longer.drop_last() =~= list.take(i as int));
            assert(longer.last() == words@[i as int]@);
            if i == 0 {
                assert(longer[0] == words@[0]@);
            }
        }
        if i > 0 {
            text.append(", ");
        }
        text.append(words[i].as_str());
        proof {
            if i == 0 {
                assert(text@ =~= words@[0]@);
            }
        }
        i += 1;
    }
    assert(list.take(words@.len() as int) =~= list);
    text
}

} // verus!
