//! Numbers written as text.

use vstd::prelude::*;
use vstd::string::{StrSliceExecFns, StringExecFns};
use crate::digest::{hex_digit, hex_str};

verus! {

/// A number in decimal digits, without leading zeros.
pub open spec fn decimal_of(n: nat) -> Seq<char>
    decreases n,
{
    if n < 10 {
        seq![hex_digit(n as int)]
    } else {
        decimal_of(n / 10) + seq![hex_digit((n % 10) as int)]
    }
}

/// Writes a number in decimal digits.
pub fn decimal(n: u64) -> (text: String)
    ensures
        text@ == decimal_of(n as nat),
    decreases n,
{
    if n < 10 {
        String::from_str(hex_str(n as u8))
    } else {
        let mut text = decimal(n / 10);
        text.append(hex_str((n % 10) as u8));
        text
    }
}

/// A text cut at its commas: the pieces between them, in order.  A text
/// without a comma is one piece; a comma at an end leaves an empty piece
/// there.
pub open spec fn split_commas(s: Seq<char>) -> Seq<Seq<char>>
    decreases s.len(),
{
    if s.len() == 0 {
        seq![Seq::empty()]
    } else {
        let front = split_commas(s.drop_last());
        if s.last() == ',' {
            front.push(Seq::empty())
        } else {
            front.update(front.len() - 1, front.last().push(s.last()))
        }
    }
}

/// A text cut at its commas has at least one piece.
pub proof fn lemma_split_nonempty(s: Seq<char>)
    ensures
        split_commas(s).len() >= 1,
    decreases s.len(),
{
    if s.len() > 0 {
        lemma_split_nonempty(s.drop_last());
    }
}

/// The texts in a list, as mathematical values.
pub open spec fn pieces_of(list: Seq<String>) -> Seq<Seq<char>> {
    Seq::new(list.len(), |i: int| list[i]@)
}

/// Cuts a text at its commas.
pub fn split_at_commas(text: &str) -> (pieces: Vec<String>)
    ensures
        pieces_of(pieces@) == split_commas(text@),
{
    let n = text.unicode_len();
    let mut pieces: Vec<String> = Vec::new();
    let mut start: usize = 0;
    let mut i: usize = 0;
    assert(text@.subrange(0, 0) =~= Seq::<char>::empty());
    assert(pieces_of(pieces@).push(text@.subrange(0, 0)) =~= split_commas(text@.subrange(0, 0)));
    while i < n
        invariant
            n == text@.len(),
            start <= i <= n,
            pieces_of(pieces@).push(text@.subrange(start as int, i as int)) == split_commas(
                text@.subrange(0, i as int),
            ),
        decreases n - i,
    {
        let c = text.get_char(i);
        let ghost before = pieces_of(pieces@);
        let ghost current = text@.subrange(start as int, i as int);
        proof {
            let upto = text@.subrange(0, i + 1);
            assert(upto.drop_last() =~= text@.subrange(0, i as int));
            assert(upto.last() == c);
            lemma_split_nonempty(upto.drop_last());
        }
        if c == ',' {
            pieces.push(String::from_str(text.substring_char(start, i)));
            start = i + 1;
            proof {
                assert(pieces_of(pieces@) =~= before.push(current));
                assert(text@.subrange(start as int, i + 1) =~= Seq::<char>::empty());
            }
        } else {
            proof {
                let front = before.push(current);
                assert(text@.subrange(start as int, i + 1) =~= current.push(c));
                assert(front.update(front.len() - 1, front.last().push(c)) =~= before.push(
                    current.push(c),
                ));
            }
        }
        i += 1;
    }
    let ghost before = pieces_of(pieces@);
    pieces.push(String::from_str(text.substring_char(start, n)));
    proof {
        assert(text@.subrange(0, n as int) =~= text@);
        assert(pieces_of(pieces@) =~= before.push(text@.subrange(start as int, n as int)));
    }
    pieces
}

/// The value of a decimal digit, or `None` for any other character.
pub open spec fn digit_value(c: char) -> Option<nat> {
    if c == '0' {
        Some(0nat)
    } else if c == '1' {
        Some(1nat)
    } else if c == '2' {
        Some(2nat)
    } else if c == '3' {
        Some(3nat)
    } else if c == '4' {
        Some(4nat)
    } else if c == '5' {
        Some(5nat)
    } else if c == '6' {
        Some(6nat)
    } else if c == '7' {
        Some(7nat)
    } else if c == '8' {
        Some(8nat)
    } else if c == '9' {
        Some(9nat)
    } else {
        None
    }
}

/// The number that a text of decimal digits writes, or `None` where a
/// character is no digit.  The empty text writes zero.
pub open spec fn digits_value(s: Seq<char>) -> Option<nat>
    decreases s.len(),
{
    if s.len() == 0 {
        Some(0nat)
    } else {
        match (digits_value(s.drop_last()), digit_value(s.last())) {
            (Some(front), Some(d)) => Some(front * 10 + d),
            _ => None,
        }
    }
}

/// The count that a text writes: one or more decimal digits, after a plus
/// sign or without one, whose value fits the machine word.
pub open spec fn count_of(s: Seq<char>) -> Option<usize> {
    let digits = if s.len() > 0 && s[0] == '+' {
        s.drop_first()
    } else {
        s
    };
    if digits.len() == 0 {
        None
    } else {
        match digits_value(digits) {
            Some(v) => if v <= usize::MAX {
                Some(v as usize)
            } else {
                None
            },
            None => None,
        }
    }
}

/// A text that has a front which is no number, or a number beyond a bound,
/// is itself no number, or a number beyond that bound.
proof fn lemma_digits_grow(s: Seq<char>, k: int, bound: nat)
    requires
        0 <= k <= s.len(),
        match digits_value(s.subrange(0, k)) {
            Some(v) => v > bound,
            None => true,
        },
    ensures
        match digits_value(s) {
            Some(v) => v > bound,
            None => true,
        },
    decreases s.len() - k,
{
    if k < s.len() {
        let next = s.subrange(0, k + 1);
        assert(next.drop_last() =~= s.subrange(0, k));
        lemma_digits_grow(s, k + 1, bound);
    } else {
        assert(s.subrange(0, k) =~= s);
    }
}

/// The value of a character as a decimal digit.
fn digit_of(c: char) -> (d: Option<usize>)
    ensures
        match d {
            Some(v) => digit_value(c) == Some(v as nat) && v < 10,
            None => digit_value(c).is_none(),
        },
{
    if c == '0' {
        Some(0)
    } else if c == '1' {
        Some(1)
    } else if c == '2' {
        Some(2)
    } else if c == '3' {
        Some(3)
    } else if c == '4' {
        Some(4)
    } else if c == '5' {
        Some(5)
    } else if c == '6' {
        Some(6)
    } else if c == '7' {
        Some(7)
    } else if c == '8' {
        Some(8)
    } else if c == '9' {
        Some(9)
    } else {
        None
    }
}

/// Reads a count from a text.
pub fn parse_count(text: &str) -> (count: Option<usize>)
    ensures
        count == count_of(text@),
{
    let n = text.unicode_len();
    let mut i: usize = 0;
    if n > 0 && text.get_char(0) == '+' {
        i = 1;
    }
    let first = i;
    let ghost digits = text@.subrange(first as int, n as int);
    proof {
        if first == 1 {
            assert(digits =~= text@.drop_first());
        } else {
            assert(digits =~= text@);
        }
    }
    if i == n {
        return None;
    }
    let mut value: usize = 0;
    let ghost wanted = match digits_value(digits) {
        Some(v) => if v <= usize::MAX {
            Some(v as usize)
        } else {
            None
        },
        None => None,
    };
    assert(count_of(text@) == wanted);
    assert(digits.subrange(0, 0) =~= Seq::<char>::empty());
    while i < n
        invariant
            n == text@.len(),
            first <= i <= n,
            digits == text@.subrange(first as int, n as int),
            digits_value(digits.subrange(0, i - first)) == Some(value as nat),
            count_of(text@) == wanted,
            wanted == match digits_value(digits) {
                Some(v) => if v <= usize::MAX {
                    Some(v as usize)
                } else {
                    None
                },
                None => None,
            },
        decreases n - i,
    {
        let c = text.get_char(i);
        proof {
            let next = digits.subrange(0, i - first + 1);
            assert(next.drop_last() =~= digits.subrange(0, i - first));
            assert(next.last() == c);
            assert(digits_value(next) == match (Some(value as nat), digit_value(c)) {
                (Some(front), Some(d)) => Some(front * 10 + d),
                _ => None::<nat>,
            });
        }
        let d = match digit_of(c) {
            Some(d) => d,
            None => {
                proof {
                    lemma_digits_grow(digits, i - first + 1, usize::MAX as nat);
                }
                return None;
            },
        };
        let grown = match value.checked_mul(10) {
            Some(v) => v.checked_add(d),
            None => None,
        };
        value = match grown {
            Some(v) => v,
            None => {
                proof {
                    lemma_digits_grow(digits, i - first + 1, usize::MAX as nat);
                }
                return None;
            },
        };
        i += 1;
    }
    assert(digits.subrange(0, n - first) =~= digits);
    Some(value)
}

} // verus!
