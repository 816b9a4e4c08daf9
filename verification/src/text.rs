//! Decimal digits in text: recognising them, reading values, writing
//! fixed-width numbers, and the blank-cell test used for note columns.

use vstd::prelude::*;
use vstd::string::StringExecFns;

verus! {

/// `c` is an ASCII decimal digit.
pub open spec fn is_digit(c: char) -> bool {
    48 <= c as u32 <= 57
}

/// Numeric value of an ASCII digit.
pub open spec fn digit_val(c: char) -> int {
    c as u32 - 48
}

/// The digit character for a value in 0..10.
pub open spec fn digit_char(d: int) -> char {
    if d == 0 {
        '0'
    } else if d == 1 {
        '1'
    } else if d == 2 {
        '2'
    } else if d == 3 {
        '3'
    } else if d == 4 {
        '4'
    } else if d == 5 {
        '5'
    } else if d == 6 {
        '6'
    } else if d == 7 {
        '7'
    } else if d == 8 {
        '8'
    } else {
        '9'
    }
}

/// Two-digit decimal rendering of a value in 0..100.
pub open spec fn two_digits(n: int) -> Seq<char> {
    seq![digit_char(n / 10), digit_char(n % 10)]
}

/// Four-digit decimal rendering of a value in 0..10000.
pub open spec fn four_digits(n: int) -> Seq<char> {
    seq![
        digit_char(n / 1000),
        digit_char((n / 100) % 10),
        digit_char((n / 10) % 10),
        digit_char(n % 10),
    ]
}

/// Distinct digit values render as distinct characters.
pub proof fn lemma_digit_char_injective(a: int, b: int)
    requires
        0 <= a < 10,
        0 <= b < 10,
        a != b,
    ensures
        digit_char(a) != digit_char(b),
{
}

/// Two-digit renderings determine their value.
pub proof fn lemma_two_digits_injective(a: int, b: int)
    requires
        0 <= a < 100,
        0 <= b < 100,
        a != b,
    ensures
        two_digits(a) != two_digits(b),
{
    if a / 10 == b / 10 {
        assert(a % 10 != b % 10) by {
            vstd::arithmetic::div_mod::lemma_fundamental_div_mod(a, 10);
            vstd::arithmetic::div_mod::lemma_fundamental_div_mod(b, 10);
        }
        lemma_digit_char_injective(a % 10, b % 10);
        assert(two_digits(a)[1] != two_digits(b)[1]);
    } else {
        lemma_digit_char_injective(a / 10, b / 10);
        assert(two_digits(a)[0] != two_digits(b)[0]);
    }
}

/// Four-digit renderings determine their value.
pub proof fn lemma_four_digits_injective(a: int, b: int)
    requires
        0 <= a < 10000,
        0 <= b < 10000,
        a != b,
    ensures
        four_digits(a) != four_digits(b),
{
    vstd::arithmetic::div_mod::lemma_fundamental_div_mod(a, 10);
    vstd::arithmetic::div_mod::lemma_fundamental_div_mod(b, 10);
    vstd::arithmetic::div_mod::lemma_fundamental_div_mod(a / 10, 10);
    vstd::arithmetic::div_mod::lemma_fundamental_div_mod(b / 10, 10);
    vstd::arithmetic::div_mod::lemma_fundamental_div_mod(a / 100, 10);
    vstd::arithmetic::div_mod::lemma_fundamental_div_mod(b / 100, 10);
    vstd::arithmetic::div_mod::lemma_div_denominator(a, 10, 10);
    vstd::arithmetic::div_mod::lemma_div_denominator(b, 10, 10);
    vstd::arithmetic::div_mod::lemma_div_denominator(a, 100, 10);
    vstd::arithmetic::div_mod::lemma_div_denominator(b, 100, 10);
    if four_digits(a) == four_digits(b) {
        assert(four_digits(a)[0] == four_digits(b)[0]);
        assert(four_digits(a)[1] == four_digits(b)[1]);
        assert(four_digits(a)[2] == four_digits(b)[2]);
        assert(four_digits(a)[3] == four_digits(b)[3]);
        assert(a / 1000 == b / 1000);
        assert((a / 100) % 10 == (b / 100) % 10);
        assert((a / 10) % 10 == (b / 10) % 10);
        assert(a % 10 == b % 10);
        assert(a == b);
        assert(false);
    }
}

/// Append one digit character to `s`.
pub fn push_digit(s: &mut String, d: u8)
    requires
        d < 10,
    ensures
        final(s)@ == old(s)@.push(digit_char(d as int)),
{
    proof {
        reveal_strlit("0");
        reveal_strlit("1");
        reveal_strlit("2");
        reveal_strlit("3");
        reveal_strlit("4");
        reveal_strlit("5");
        reveal_strlit("6");
        reveal_strlit("7");
        reveal_strlit("8");
        reveal_strlit("9");
    }
    match d {
        0 => s.append("0"),
        1 => s.append("1"),
        2 => s.append("2"),
        3 => s.append("3"),
        4 => s.append("4"),
        5 => s.append("5"),
        6 => s.append("6"),
        7 => s.append("7"),
        8 => s.append("8"),
        _ => s.append("9"),
    }
    proof {
        assert(s@ =~= old(s)@.push(digit_char(d as int)));
    }
}

/// Append the two-digit rendering of `n` to `s`.
pub fn push_two_digits(s: &mut String, n: u8)
    requires
        n < 100,
    ensures
        final(s)@ == old(s)@ + two_digits(n as int),
{
    push_digit(s, n / 10);
    push_digit(s, n % 10);
    proof {
        assert(s@ =~= old(s)@ + two_digits(n as int));
    }
}

/// Append the four-digit rendering of `n` to `s`.
pub fn push_four_digits(s: &mut String, n: u32)
    requires
        n < 10000,
    ensures
        final(s)@ == old(s)@ + four_digits(n as int),
{
    push_digit(s, (n / 1000) as u8);
    push_digit(s, ((n / 100) % 10) as u8);
    push_digit(s, ((n / 10) % 10) as u8);
    push_digit(s, (n % 10) as u8);
    proof {
        assert(s@ =~= old(s)@ + four_digits(n as int));
    }
}

/// `c` counts as whitespace when deciding that a note cell is blank.
pub open spec fn is_space(c: char) -> bool {
    c == ' ' || c == '\t' || c == '\n' || c == '\r'
}

/// Whether `c` is whitespace.
pub fn is_space_exec(c: char) -> (r: bool)
    ensures
        r == is_space(c),
{
    c == ' ' || c == '\t' || c == '\n' || c == '\r'
}

/// A cell is blank when every character is whitespace.
pub open spec fn is_blank(s: Seq<char>) -> bool {
    forall|i: int| 0 <= i < s.len() ==> is_space(#[trigger] s[i])
}

/// Whether the string is entirely whitespace (so an empty note).
pub fn blank_exec(s: &String) -> (r: bool)
    ensures
        r == is_blank(s@),
{
    let st = s.as_str();
    let n = st.unicode_len();
    let mut i: usize = 0;
    while i < n
        invariant
            0 <= i <= n,
            n == st@.len(),
            st@ == s@,
            forall|j: int| 0 <= j < i ==> is_space(#[trigger] s@[j]),
        decreases n - i,
    {
        let c = st.get_char(i);
        if !(c == ' ' || c == '\t' || c == '\n' || c == '\r') {
            return false;
        }
        i = i + 1;
    }
    true
}

} // verus!
