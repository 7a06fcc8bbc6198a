//! Reading numbers and glyphs from text.

use vstd::prelude::*;
use vstd::string::{StrSliceExecFns, StringExecFns};

verus! {

/// The characters of a text.
pub fn chars_of(s: &str) -> (chars: Vec<char>)
    ensures
        chars@ == s@,
{
    let len = s.unicode_len();
    let mut chars: Vec<char> = Vec::new();
    let mut index: usize = 0;
    while index < len
        invariant
            len == s@.len(),
            index <= len,
            chars@ == s@.subrange(0, index as int),
        decreases len - index,
    {
        chars.push(s.get_char(index));
        proof {
            assert(chars@ =~= s@.subrange(0, index as int + 1));
        }
        index += 1;
    }
    proof {
        assert(chars@ =~= s@);
    }
    chars
}

/// The value of a decimal digit.
pub open spec fn digit_value(c: char) -> int {
    c as int - '0' as int
}

pub open spec fn is_digit(c: char) -> bool {
    '0' <= c <= '9'
}

/// The number that a sequence of decimal digits writes.
pub open spec fn digits_value(s: Seq<char>) -> int
    decreases s.len(),
{
    if s.len() == 0 {
        0
    } else {
        10 * digits_value(s.drop_last()) + digit_value(s.last())
    }
}

/// The text is one decimal digit at least, and nothing else.
pub open spec fn all_digits(s: Seq<char>) -> bool {
    s.len() > 0 && forall|i: int| 0 <= i < s.len() ==> is_digit(#[trigger] s[i])
}

/// The digits of a text that writes a number: the text itself, or what
/// follows its plus sign.
pub open spec fn unsigned_digits(s: Seq<char>) -> Seq<char> {
    if s.len() > 0 && s[0] == '+' {
        s.subrange(1, s.len() as int)
    } else {
        s
    }
}

/// The number that the text writes, if it writes one that the machine can
/// hold: decimal digits, with or without a plus sign before them.
pub open spec fn number(s: Seq<char>) -> Option<usize> {
    let digits = unsigned_digits(s);
    if all_digits(digits) && digits_value(digits) <= usize::MAX {
        Some(digits_value(digits) as usize)
    } else {
        None
    }
}

pub proof fn lemma_digits_value_grows(s: Seq<char>, k: int)
    requires
        0 <= k <= s.len(),
        forall|i: int| 0 <= i < s.len() ==> is_digit(#[trigger] s[i]),
    ensures
        0 <= digits_value(s.subrange(0, k)) <= digits_value(s),
    decreases s.len() - k,
{
    if k < s.len() {
        lemma_digits_value_grows(s, k + 1);
        let longer = s.subrange(0, k + 1);
        assert(longer.drop_last() =~= s.subrange(0, k));
        lemma_digits_value_nonneg(s.subrange(0, k));
        assert(is_digit(s[k]));
        assert(longer.last() == s[k]);
    } else {
        assert(s.subrange(0, k) =~= s);
        lemma_digits_value_nonneg(s);
    }
}

pub proof fn lemma_digits_value_nonneg(s: Seq<char>)
    requires
        forall|i: int| 0 <= i < s.len() ==> is_digit(#[trigger] s[i]),
    ensures
        0 <= digits_value(s),
    decreases s.len(),
{
    if s.len() > 0 {
        lemma_digits_value_nonneg(s.drop_last());
        assert(is_digit(s[s.len() - 1]));
    }
}

/// Reads the number that the characters from `from` to `to` write.
pub fn parse_number(chars: &Vec<char>, from: usize, to: usize) -> (value: Option<usize>)
    requires
        from <= to <= chars@.len(),
    ensures
        value == number(chars@.subrange(from as int, to as int)),
{
    let ghost text = chars@.subrange(from as int, to as int);
    let mut index = from;
    if index < to && chars[index] == '+' {
        index += 1;
    }
    let ghost digits = chars@.subrange(index as int, to as int);
    proof {
        assert(text.len() > 0 ==> text[0] == chars@[from as int]);
        assert(digits =~= unsigned_digits(text));
    }
    if index == to {
        return None;
    }
    let start = index;
    let mut value: usize = 0;
    while index < to
        invariant
            start <= index <= to <= chars@.len(),
            digits == chars@.subrange(start as int, to as int),
            digits == unsigned_digits(text),
            text == chars@.subrange(from as int, to as int),
            forall|i: int| 0 <= i < index - start ==> is_digit(#[trigger] digits[i]),
            value == digits_value(digits.subrange(0, index - start)),
        decreases to - index,
    {
        let c = chars[index];
        proof {
            assert(digits[index - start] == c);
        }
        if c < '0' || c > '9' {
            proof {
                assert(!is_digit(digits[index - start]));
            }
            return None;
        }
        let digit = (c as u8 - '0' as u8) as usize;
        proof {
            let longer = digits.subrange(0, index - start + 1);
            assert(longer.drop_last() =~= digits.subrange(0, index - start));
            assert(longer.last() == c);
            assert(digit == digit_value(c));
        }
        if value > (usize::MAX - digit) / 10 {
            proof {
                // the digits so far write too large a number already
                assert(10 * value + digit > usize::MAX);
                assert(digits_value(digits.subrange(0, index - start + 1)) == 10 * value + digit);
                if all_digits(digits) {
                    lemma_digits_value_grows(digits, index - start + 1);
                }
            }
            return None;
        }
        value = value * 10 + digit;
        index += 1;
    }
    proof {
        assert(digits.subrange(0, to - start) =~= digits);
    }
    Some(value)
}

/// The position of the first `mark` among the characters from `from` on;
/// their number if there is none.
pub open spec fn first_mark(s: Seq<char>, mark: char, from: int) -> int
    decreases s.len() - from,
{
    if from >= s.len() {
        s.len() as int
    } else if s[from] == mark {
        from
    } else {
        first_mark(s, mark, from + 1)
    }
}

pub fn find_mark(chars: &Vec<char>, mark: char, from: usize) -> (at: usize)
    requires
        from <= chars@.len(),
    ensures
        at == first_mark(chars@, mark, from as int),
        from <= at <= chars@.len(),
{
    let mut index = from;
    while index < chars.len() && chars[index] != mark
        invariant
            from <= index <= chars@.len(),
            first_mark(chars@, mark, from as int) == first_mark(chars@, mark, index as int),
        decreases chars@.len() - index,
    {
        index += 1;
    }
    index
}

/// The position of the glyph in the alphabet, if it is one of its glyphs:
/// that of its first occurrence.
pub open spec fn glyph_index(alphabet: Seq<char>, c: char) -> Option<usize> {
    if first_mark(alphabet, c, 0) < alphabet.len() {
        Some(first_mark(alphabet, c, 0) as usize)
    } else {
        None
    }
}

pub fn find_glyph(alphabet: &Vec<char>, c: char) -> (at: Option<usize>)
    ensures
        at == glyph_index(alphabet@, c),
{
    let at = find_mark(alphabet, c, 0);
    if at < alphabet.len() {
        Some(at)
    } else {
        None
    }
}

/// Two texts, one after the other.
pub fn words(a: &str, b: &str) -> (text: String)
    ensures
        text@ == a@ + b@,
{
    String::from_str(a).concat(b)
}

/// The decimal digit of a number below ten.
pub open spec fn digit_char(d: int) -> char {
    if d == 0 {
        '0'
    } else if d == 1 {
        '1'
    } else if d == 2 {
        '2'
    } else if d == 3 {
        '3'
    } else if d == 4 {
        '4'
    } else if d == 5 {
        '5'
    } else if d == 6 {
        '6'
    } else if d == 7 {
        '7'
    } else if d == 8 {
        '8'
    } else {
        '9'
    }
}

/// A number written in decimal digits.
pub open spec fn decimal(n: nat) -> Seq<char>
    decreases n,
{
    if n < 10 {
        seq![digit_char(n as int)]
    } else {
        decimal(n / 10).push(digit_char((n % 10) as int))
    }
}

/// The text of a decimal digit.
fn digit_text(d: usize) -> (text: &'static str)
    requires
        d < 10,
    ensures
        text@ == seq![digit_char(d as int)],
{
    proof {
        reveal_strlit("0");
        reveal_strlit("1");
        reveal_strlit("2");
        reveal_strlit("3");
        reveal_strlit("4");
        reveal_strlit("5");
        reveal_strlit("6");
        reveal_strlit("7");
        reveal_strlit("8");
        reveal_strlit("9");
    }
    let text = if d == 0 {
        "0"
    } else if d == 1 {
        "1"
    } else if d == 2 {
        "2"
    } else if d == 3 {
        "3"
    } else if d == 4 {
        "4"
    } else if d == 5 {
        "5"
    } else if d == 6 {
        "6"
    } else if d == 7 {
        "7"
    } else if d == 8 {
        "8"
    } else {
        "9"
    };
    proof {
        assert(text@ =~= seq![digit_char(d as int)]);
    }
    text
}

/// Appends a number in decimal digits to a text.
pub fn append_decimal(text: &mut String, n: usize)
    ensures
        final(text)@ == old(text)@ + decimal(n as nat),
    decreases n,
{
    let ghost before = text@;
    if n >= 10 {
        append_decimal(text, n / 10);
    }
    text.append(digit_text(n % 10));
    proof {
        assert(text@ =~= before + decimal(n as nat));
    }
}

} // verus!
