//! Decimal numbers as text: how a number is written, and which number a
//! piece of text stands for.

use vstd::prelude::*;
use vstd::string::*;

verus! {

/// The character that stands for a digit.
pub open spec fn digit_char(digit: nat) -> char {
    if digit == 0 {
        '0'
    } else if digit == 1 {
        '1'
    } else if digit == 2 {
        '2'
    } else if digit == 3 {
        '3'
    } else if digit == 4 {
        '4'
    } else if digit == 5 {
        '5'
    } else if digit == 6 {
        '6'
    } else if digit == 7 {
        '7'
    } else if digit == 8 {
        '8'
    } else {
        '9'
    }
}

/// The digit that a character stands for, if it is one.
pub open spec fn digit_of(c: char) -> Option<nat> {
    if '0' <= c <= '9' {
        Some((c as u32 - '0' as u32) as nat)
    } else {
        None
    }
}

/// A number as it is written: no sign, no leading zero, `"0"` for zero.
pub open spec fn decimal(n: nat) -> Seq<char>
    decreases n,
{
    if n < 10 {
        seq![digit_char(n)]
    } else {
        decimal(n / 10).push(digit_char(n % 10))
    }
}

/// The number that a run of digits stands for; `None` when a character is
/// no digit. The empty run stands for zero.
pub open spec fn digits_value(s: Seq<char>) -> Option<nat>
    decreases s.len(),
{
    if s.len() == 0 {
        Some(0)
    } else {
        match (digits_value(s.drop_last()), digit_of(s.last())) {
            (Some(value), Some(digit)) => Some(value * 10 + digit),
            _ => None,
        }
    }
}

/// A run of digits stands for no less than any of its beginnings, and only
/// when each beginning stands for a number.
pub proof fn lemma_digits_grow(s: Seq<char>, len: int)
    requires
        0 <= len <= s.len(),
        digits_value(s) is Some,
    ensures
        digits_value(s.take(len)) is Some,
        digits_value(s.take(len))->0 <= digits_value(s)->0,
    decreases s.len(),
{
    if len == s.len() {
        assert(s.take(len) =~= s);
    } else {
        lemma_digits_grow(s.drop_last(), len);
        assert(s.drop_last().take(len) =~= s.take(len));
    }
}

/// What is written for a number stands for that number, and holds digits
/// only.
pub proof fn lemma_decimal_reads_back(n: nat)
    ensures
        decimal(n).len() >= 1,
        digits_value(decimal(n)) == Some(n),
        forall|i: int| 0 <= i < decimal(n).len() ==> digit_of(#[trigger] decimal(n)[i]) is Some,
    decreases n,
{
    if n < 10 {
        assert(decimal(n).drop_last() =~= Seq::<char>::empty());
        assert(digits_value(decimal(n).drop_last()) == Some(0nat));
        assert(digit_of(digit_char(n)) == Some(n));
    } else {
        lemma_decimal_reads_back(n / 10);
        assert(decimal(n).drop_last() =~= decimal(n / 10));
        assert(digit_of(digit_char(n % 10)) == Some(n % 10));
    }
}

/// The text of one digit.
fn digit_text(digit: u64) -> (text: &'static str)
    requires
        digit < 10,
    ensures
        text@ == seq![digit_char(digit as nat)],
{
    proof {
        reveal_strlit("0");
        reveal_strlit("1");
        reveal_strlit("2");
        reveal_strlit("3");
        reveal_strlit("4");
        reveal_strlit("5");
        reveal_strlit("6");
        reveal_strlit("7");
        reveal_strlit("8");
        reveal_strlit("9");
    }
    let text = if digit == 0 {
        "0"
    } else if digit == 1 {
        "1"
    } else if digit == 2 {
        "2"
    } else if digit == 3 {
        "3"
    } else if digit == 4 {
        "4"
    } else if digit == 5 {
        "5"
    } else if digit == 6 {
        "6"
    } else if digit == 7 {
        "7"
    } else if digit == 8 {
        "8"
    } else {
        "9"
    };
    assert(text@ =~= seq![digit_char(digit as nat)]);
    text
}

/// Writes `n` in decimal.
pub fn to_decimal(n: u64) -> (text: String)
    ensures
        text@ == decimal(n as nat),
    decreases n,
{
    if n < 10 {
        String::from_str(digit_text(n))
    } else {
        let mut text = to_decimal(n / 10);
        text.append(digit_text(n % 10));
        assert(text@ =~= decimal(n as nat));
        text
    }
}

/// The characters of `s`.
pub fn chars_of(s: &str) -> (chars: Vec<char>)
    ensures
        chars@ == s@,
{
    let mut chars: Vec<char> = Vec::new();
    for c in it: s.chars()
        invariant
            it.seq() == s@,
            chars@ == s@.take(it.index()),
    {
        chars.push(c);
        assert(chars@ =~= s@.take(it.index() + 1));
    }
    assert(chars@ =~= s@);
    chars
}

/// Reads the run of digits `chars[from..to]` as a number of at most
/// `limit`. `None` when a character is no digit or the number is above the
/// limit.
pub fn read_digits(chars: &Vec<char>, from: usize, to: usize, limit: u64) -> (value: Option<u64>)
    requires
        from <= to <= chars.len(),
        limit <= u64::MAX / 10 - 1,
    ensures
        value == match digits_value(chars@.subrange(from as int, to as int)) {
            Some(number) => if number <= limit {
                Some(number as u64)
            } else {
                None
            },
            None => None,
        },
{
    let ghost run = chars@.subrange(from as int, to as int);
    let mut value: u64 = 0;
    let mut i: usize = from;
    assert(run.take(0) =~= Seq::<char>::empty());
    while i < to
        invariant
            from <= i <= to <= chars.len(),
            limit <= u64::MAX / 10 - 1,
            run == chars@.subrange(from as int, to as int),
            value <= limit,
            digits_value(run.take(i - from)) == Some(value as nat),
        decreases to - i,
    {
        let c = chars[i];
        let ghost seen = run.take(i - from);
        let ghost more = run.take(i - from + 1);
        assert(more.drop_last() =~= seen);
        assert(more.last() == c);
        if !('0' <= c && c <= '9') {
            proof {
                if digits_value(run) is Some {
                    lemma_digits_grow(run, i - from + 1);
                }
            }
            return None;
        }
        let digit = (c as u32 - '0' as u32) as u64;
        let next = value * 10 + digit;
        if next > limit {
            proof {
                if digits_value(run) is Some {
                    lemma_digits_grow(run, i - from + 1);
                }
            }
            return None;
        }
        value = next;
        i += 1;
    }
    assert(run.take(to - from) =~= run);
    Some(value)
}

} // verus!
