//! Integers as decimal text: reading a literal and writing a number.

use vstd::prelude::*;

verus! {

/// Whether `v` can be held by a number of the language.
pub open spec fn representable(v: int) -> bool {
    i128::MIN <= v <= i128::MAX
}

/// Whether `c` is one of the decimal digits `0` to `9`.
pub open spec fn is_digit(c: char) -> bool {
    '0' <= c <= '9'
}

/// Whether `c` is a sign.
pub open spec fn is_sign(c: char) -> bool {
    c == '+' || c == '-'
}

/// The number that the digit `c` stands for.
pub open spec fn digit_value(c: char) -> nat {
    (c as int - '0' as int) as nat
}

/// The digit that stands for `d`, a number below ten.
pub open spec fn digit_char(d: nat) -> char {
    ('0' as int + d) as char
}

/// Whether `s` holds digits only.
pub open spec fn all_digits(s: Seq<char>) -> bool {
    forall|i: int| 0 <= i < s.len() ==> is_digit(#[trigger] s[i])
}

/// The number that a run of digits spells in base ten; the empty run spells
/// zero.
pub open spec fn digits_value(s: Seq<char>) -> nat
    decreases s.len(),
{
    if s.len() == 0 {
        0
    } else {
        digits_value(s.drop_last()) * 10 + digit_value(s.last())
    }
}

/// The digits of a literal: the text without its sign.
pub open spec fn literal_digits(s: Seq<char>) -> Seq<char> {
    if s.len() > 0 && is_sign(s[0]) {
        s.drop_first()
    } else {
        s
    }
}

/// Whether `s` is an integer literal: an optional sign, then one digit or
/// more, and nothing else.
pub open spec fn is_literal(s: Seq<char>) -> bool {
    literal_digits(s).len() > 0 && all_digits(literal_digits(s))
}

/// The integer that the literal `s` spells.
pub open spec fn literal_value(s: Seq<char>) -> int {
    if s.len() > 0 && s[0] == '-' {
        -(digits_value(literal_digits(s)) as int)
    } else {
        digits_value(literal_digits(s)) as int
    }
}

/// The digits of `n` in base ten, without leading zeros.
pub open spec fn digits_of(n: nat) -> Seq<char>
    decreases n,
{
    if n < 10 {
        seq![digit_char(n)]
    } else {
        digits_of(n / 10).push(digit_char(n % 10))
    }
}

/// The decimal text of `n`: its digits, behind a minus sign where it is
/// negative.
pub open spec fn decimal(n: int) -> Seq<char> {
    if n < 0 {
        seq!['-'] + digits_of((-n) as nat)
    } else {
        digits_of(n as nat)
    }
}

/// A run of digits spells at least what any of its prefixes spells.
pub proof fn lemma_digits_value_grows(s: Seq<char>, k: int)
    requires
        0 <= k <= s.len(),
    ensures
        digits_value(s.take(k)) <= digits_value(s),
    decreases s.len(),
{
    if k == s.len() {
        assert(s.take(k) =~= s);
    } else {
        lemma_digits_value_grows(s.drop_last(), k);
        assert(s.drop_last().take(k) =~= s.take(k));
    }
}

/// A digit stands for the number whose digit it is.
pub proof fn lemma_digit_char(d: nat)
    requires
        d < 10,
    ensures
        is_digit(digit_char(d)),
        !is_sign(digit_char(d)),
        digit_value(digit_char(d)) == d,
{
}

/// The digits of a number are digits, at least one, and spell that number.
pub proof fn lemma_digits_of(n: nat)
    ensures
        digits_of(n).len() > 0,
        all_digits(digits_of(n)),
        digits_value(digits_of(n)) == n,
    decreases n,
{
    lemma_digit_char(n % 10);
    if n < 10 {
        let one = seq![digit_char(n)];
        assert(digits_value(one.drop_last()) == 0);
    } else {
        lemma_digits_of(n / 10);
        let front = digits_of(n / 10);
        let all = front.push(digit_char(n % 10));
        assert(all.drop_last() =~= front);
    }
}

/// Writing a number and reading the text back gives the number: the decimal
/// text of `n` is a literal that spells `n`.
pub proof fn lemma_decimal_reads_back(n: int)
    ensures
        is_literal(decimal(n)),
        literal_value(decimal(n)) == n,
{
    if n < 0 {
        let digits = digits_of((-n) as nat);
        lemma_digits_of((-n) as nat);
        assert(literal_digits(decimal(n)) =~= digits);
    } else {
        lemma_digits_of(n as nat);
    }
}

/// The greatest magnitude that a number can have: that of the least number.
pub const MAX_MAGNITUDE: u128 = 0x8000_0000_0000_0000_0000_0000_0000_0000;

/// Reads an integer literal. The result is the number that `text` spells,
/// where `text` is a literal and its number is representable; otherwise
/// there is none.
pub fn parse_literal(text: &str) -> (r: Option<i128>)
    ensures
        r == (if is_literal(text@) && representable(literal_value(text@)) {
            Some(literal_value(text@) as i128)
        } else {
            None
        }),
{
    let ghost s = text@;
    let mut first = true;
    let mut signed = false;
    let mut negative = false;
    let mut any_digit = false;
    let mut magnitude: u128 = 0;
    for c in it: text.chars()
        invariant
            it.seq() == s,
            s == text@,
            first == (it.index() == 0),
            signed ==> it.index() >= 1 && is_sign(s[0]),
            !signed && it.index() >= 1 ==> !is_sign(s[0]),
            negative == (signed && s[0] == '-'),
            any_digit == (it.index() > (if signed { 1int } else { 0int })),
            all_digits(s.subrange(if signed { 1int } else { 0int }, it.index())),
            magnitude == digits_value(s.subrange(if signed { 1int } else { 0int }, it.index())),
            magnitude <= MAX_MAGNITUDE,
    {
        let ghost count = it.index();
        let ghost start = if signed { 1int } else { 0int };
        let ghost before = s.subrange(start, count);
        if first && (c == '+' || c == '-') {
            signed = true;
            negative = c == '-';
        } else if '0' <= c && c <= '9' {
            let d: u128 = (c as u32 - '0' as u32) as u128;
            let ghost after = s.subrange(start, count + 1);
            proof {
                assert(after.drop_last() =~= before);
            }
            if magnitude > (MAX_MAGNITUDE - d) / 10 {
                proof {
                    let digits = literal_digits(s);
                    assert(digits.take(count + 1 - start) =~= after);
                    lemma_digits_value_grows(digits, count + 1 - start);
                }
                return None;
            }
            magnitude = magnitude * 10 + d;
            any_digit = true;
        } else {
            proof {
                assert(literal_digits(s)[count - start] == c);
            }
            return None;
        }
        first = false;
    }
    proof {
        let start = if signed { 1int } else { 0int };
        assert(literal_digits(s) =~= s.subrange(start, s.len() as int));
    }
    if !any_digit {
        None
    } else if negative {
        if magnitude == MAX_MAGNITUDE {
            Some(i128::MIN)
        } else {
            Some(-(magnitude as i128))
        }
    } else if magnitude == MAX_MAGNITUDE {
        None
    } else {
        Some(magnitude as i128)
    }
}

/// Appends the digits of `n` to `out`.
fn push_digits(out: &mut String, n: u128)
    ensures
        final(out)@ == old(out)@ + digits_of(n as nat),
    decreases n,
{
    if n >= 10 {
        push_digits(out, n / 10);
    }
    let d = (n % 10) as u8;
    out.push(('0' as u8 + d) as char);
}

/// Appends the decimal text of `n` to `out`.
pub fn push_decimal(out: &mut String, n: i128)
    ensures
        final(out)@ == old(out)@ + decimal(n as int),
{
    if n < 0 {
        out.push('-');
        let magnitude: u128 = if n == i128::MIN {
            MAX_MAGNITUDE
        } else {
            (-n) as u128
        };
        push_digits(out, magnitude);
    } else {
        push_digits(out, n as u128);
    }
}

} // verus!
