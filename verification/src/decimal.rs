//! Signed decimal numerals: how an integer is written, and what a written
//! token means.

use vstd::prelude::*;
use vstd::string::*;

verus! {

/// The character that stands for the digit `d`.
pub open spec fn digit_char(d: int) -> char {
    if d == 0 {
        '0'
    } else if d == 1 {
        '1'
    } else if d == 2 {
        '2'
    } else if d == 3 {
        '3'
    } else if d == 4 {
        '4'
    } else if d == 5 {
        '5'
    } else if d == 6 {
        '6'
    } else if d == 7 {
        '7'
    } else if d == 8 {
        '8'
    } else {
        '9'
    }
}

/// Whether `c` is one of the ten decimal digits.
pub open spec fn is_digit(c: char) -> bool {
    c == '0' || c == '1' || c == '2' || c == '3' || c == '4' || c == '5' || c == '6' || c == '7'
        || c == '8' || c == '9'
}

/// The value of the digit `c`.
pub open spec fn digit_of(c: char) -> int {
    if c == '0' {
        0
    } else if c == '1' {
        1
    } else if c == '2' {
        2
    } else if c == '3' {
        3
    } else if c == '4' {
        4
    } else if c == '5' {
        5
    } else if c == '6' {
        6
    } else if c == '7' {
        7
    } else if c == '8' {
        8
    } else {
        9
    }
}

/// Whether `s` holds digits only.
pub open spec fn all_digits(s: Seq<char>) -> bool {
    forall|i: int| 0 <= i < s.len() ==> is_digit(#[trigger] s[i])
}

/// The number that the digits `s` spell, most significant digit first.
pub open spec fn digits_value(s: Seq<char>) -> int
    decreases s.len(),
{
    if s.len() == 0 {
        0
    } else {
        digits_value(s.drop_last()) * 10 + digit_of(s.last())
    }
}

/// The digits of `n`, most significant first, with no leading zero.
pub open spec fn nat_digits(n: nat) -> Seq<char>
    decreases n,
{
    if n < 10 {
        seq![digit_char(n as int)]
    } else {
        nat_digits(n / 10).push(digit_char((n % 10) as int))
    }
}

/// How the integer `v` is written: its digits, after a minus sign if it is
/// negative.
pub open spec fn decimal(v: int) -> Seq<char> {
    if v < 0 {
        seq!['-'] + nat_digits((-v) as nat)
    } else {
        nat_digits(v as nat)
    }
}

/// What the token `t` means: an optional minus sign, then one digit or
/// more, spell an integer, which must fit in 32 bits. Anything else means
/// nothing.
pub open spec fn token_value(t: Seq<char>) -> Option<i32> {
    let negative = t.len() > 0 && t[0] == '-';
    let digits = if negative { t.skip(1) } else { t };
    let value = if negative { -digits_value(digits) } else { digits_value(digits) };
    if digits.len() > 0 && all_digits(digits) && i32::MIN <= value <= i32::MAX {
        Some(value as i32)
    } else {
        None
    }
}

/// The digits of a number are digits, there is at least one, and they spell
/// the number.
pub proof fn lemma_nat_digits(n: nat)
    ensures
        nat_digits(n).len() >= 1,
        all_digits(nat_digits(n)),
        digits_value(nat_digits(n)) == n,
    decreases n,
{
    if n < 10 {
        let s = nat_digits(n);
        assert(s.drop_last() =~= Seq::<char>::empty());
        assert(digits_value(s.drop_last()) == 0);
    } else {
        lemma_nat_digits(n / 10);
        let s = nat_digits(n);
        assert(s.drop_last() =~= nat_digits(n / 10));
        assert(s.last() == digit_char((n % 10) as int));
    }
}

/// A written integer holds digits and at most a leading minus sign, and it
/// means the integer that was written.
pub proof fn lemma_decimal(v: i32)
    ensures
        decimal(v as int).len() >= 1,
        forall|i: int| 0 <= i < decimal(v as int).len() ==> is_digit(#[trigger] decimal(v as int)[i]) || decimal(v as int)[i] == '-',
        token_value(decimal(v as int)) == Some(v),
{
    let t = decimal(v as int);
    if v < 0 {
        let digits = nat_digits((-v) as nat);
        lemma_nat_digits((-v) as nat);
        assert(t.skip(1) =~= digits);
        assert forall|i: int| 0 <= i < t.len() implies is_digit(#[trigger] t[i]) || t[i] == '-' by {
            if i > 0 {
                assert(t[i] == digits[i - 1]);
            }
        }
    } else {
        lemma_nat_digits(v as nat);
        assert(is_digit(t[0]));
    }
}

/// Appends the character of the digit `d`.
fn push_digit(out: &mut String, d: u32)
    requires
        d < 10,
    ensures
        final(out)@ == old(out)@.push(digit_char(d as int)),
{
    proof {
        reveal_strlit("0");
        reveal_strlit("1");
        reveal_strlit("2");
        reveal_strlit("3");
        reveal_strlit("4");
        reveal_strlit("5");
        reveal_strlit("6");
        reveal_strlit("7");
        reveal_strlit("8");
        reveal_strlit("9");
    }
    let ghost before = out@;
    if d == 0 {
        out.append("0");
    } else if d == 1 {
        out.append("1");
    } else if d == 2 {
        out.append("2");
    } else if d == 3 {
        out.append("3");
    } else if d == 4 {
        out.append("4");
    } else if d == 5 {
        out.append("5");
    } else if d == 6 {
        out.append("6");
    } else if d == 7 {
        out.append("7");
    } else if d == 8 {
        out.append("8");
    } else {
        out.append("9");
    }
    assert(out@ =~= before.push(digit_char(d as int)));
}

/// Appends the digits of `n`.
fn push_nat(out: &mut String, n: u32)
    ensures
        final(out)@ == old(out)@ + nat_digits(n as nat),
    decreases n,
{
    let ghost before = out@;
    if n >= 10 {
        push_nat(out, n / 10);
    }
    push_digit(out, n % 10);
    assert(out@ =~= before + nat_digits(n as nat));
}

/// Appends `v` as it is written in decimal.
pub fn push_decimal(out: &mut String, v: i32)
    ensures
        final(out)@ == old(out)@ + decimal(v as int),
{
    let ghost before = out@;
    if v < 0 {
        proof {
            reveal_strlit("-");
        }
        out.append("-");
        let magnitude: u32 = (-(v as i64)) as u32;
        push_nat(out, magnitude);
    } else {
        push_nat(out, v as u32);
    }
    assert(out@ =~= before + decimal(v as int));
}

/// The value of the digit `c`, if it is one.
fn digit_value(c: char) -> (d: Option<i64>)
    ensures
        d is Some <==> is_digit(c),
        d matches Some(v) ==> v == digit_of(c),
{
    if c == '0' {
        Some(0)
    } else if c == '1' {
        Some(1)
    } else if c == '2' {
        Some(2)
    } else if c == '3' {
        Some(3)
    } else if c == '4' {
        Some(4)
    } else if c == '5' {
        Some(5)
    } else if c == '6' {
        Some(6)
    } else if c == '7' {
        Some(7)
    } else if c == '8' {
        Some(8)
    } else if c == '9' {
        Some(9)
    } else {
        None
    }
}

/// The number that digits spell is not negative and does not shrink when a
/// digit is appended.
proof fn lemma_digits_value_grows(s: Seq<char>)
    ensures
        digits_value(s) >= 0,
        s.len() > 0 ==> digits_value(s) >= digits_value(s.drop_last()),
    decreases s.len(),
{
    if s.len() > 0 {
        lemma_digits_value_grows(s.drop_last());
    }
}

/// Reads the token `tok`: the integer that it means, if it means one.
pub fn parse_token(tok: &Vec<char>) -> (r: Option<i32>)
    ensures
        r == token_value(tok@),
{
    let negative = tok.len() > 0 && tok[0] == '-';
    let start: usize = if negative { 1 } else { 0 };
    if start == tok.len() {
        return None;
    }
    let ghost digits = if negative { tok@.skip(1) } else { tok@ };
    let mut magnitude: i64 = 0;
    let mut too_large = false;
    let mut i: usize = start;
    while i < tok.len()
        invariant
            start <= i <= tok.len(),
            negative == (tok@.len() > 0 && tok@[0] == '-'),
            start == if negative { 1usize } else { 0usize },
            digits == if negative { tok@.skip(1) } else { tok@ },
            all_digits(digits.take(i - start)),
            !too_large ==> magnitude == digits_value(digits.take(i - start)) && 0 <= magnitude <= 0x8000_0000,
            too_large ==> digits_value(digits.take(i - start)) > 0x8000_0000,
        decreases tok.len() - i,
    {
        let ghost seen = digits.take(i - start);
        let ghost more = digits.take(i + 1 - start);
        proof {
            assert(more.drop_last() =~= seen);
            assert(more.last() == tok@[i as int]);
            lemma_digits_value_grows(more);
        }
        match digit_value(tok[i]) {
            None => {
                proof {
                    assert(!is_digit(digits[i - start]));
                }
                return None;
            },
            Some(d) => {
                if !too_large {
                    magnitude = magnitude * 10 + d;
                    if magnitude > 0x8000_0000 {
                        too_large = true;
                    }
                }
            },
        }
        i = i + 1;
    }
    proof {
        assert(digits.take(tok.len() - start) =~= digits);
    }
    if too_large {
        return None;
    }
    if negative {
        Some((-magnitude) as i32)
    } else if magnitude <= 0x7fff_ffff {
        Some(magnitude as i32)
    } else {
        None
    }
}

} // verus!
