//! Numbers and bytes as text.
use vstd::prelude::*;

verus! {

/// The character of a hexadecimal digit, letters in upper case.
pub open spec fn digit_char(digit: int) -> char {
    if digit < 10 {
        ('0' as int + digit) as char
    } else {
        ('A' as int + digit - 10) as char
    }
}

/// The decimal notation of a natural number.
pub open spec fn decimal(n: nat) -> Seq<char>
    decreases n,
{
    if n < 10 {
        seq![digit_char(n as int)]
    } else {
        decimal(n / 10).push(digit_char((n % 10) as int))
    }
}

/// The decimal notation of an integer.
pub open spec fn signed_decimal(n: int) -> Seq<char> {
    if n < 0 {
        seq!['-'] + decimal((-n) as nat)
    } else {
        decimal(n as nat)
    }
}

/// The bytes in hexadecimal notation, two digits each.
pub open spec fn hex_chars(bytes: Seq<u8>) -> Seq<char>
    decreases bytes.len(),
{
    if bytes.len() == 0 {
        Seq::empty()
    } else {
        hex_chars(bytes.drop_last()) + seq![
            digit_char(bytes.last() as int / 16),
            digit_char(bytes.last() as int % 16),
        ]
    }
}

fn digit_str(digit: u8) -> (text: &'static str)
    requires
        digit < 16,
    ensures
        text@ == seq![digit_char(digit as int)],
{
    proof {
        reveal_strlit("0");
        reveal_strlit("1");
        reveal_strlit("2");
        reveal_strlit("3");
        reveal_strlit("4");
        reveal_strlit("5");
        reveal_strlit("6");
        reveal_strlit("7");
        reveal_strlit("8");
        reveal_strlit("9");
        reveal_strlit("A");
        reveal_strlit("B");
        reveal_strlit("C");
        reveal_strlit("D");
        reveal_strlit("E");
        reveal_strlit("F");
    }
    match digit {
        0 => "0",
        1 => "1",
        2 => "2",
        3 => "3",
        4 => "4",
        5 => "5",
        6 => "6",
        7 => "7",
        8 => "8",
        9 => "9",
        10 => "A",
        11 => "B",
        12 => "C",
        13 => "D",
        14 => "E",
        _ => "F",
    }
}

/// Appends the decimal notation of `n` to `text`.
pub fn push_decimal(text: &mut String, n: u64)
    ensures
        final(text)@ == old(text)@ + decimal(n as nat),
    decreases n,
{
    if n >= 10 {
        push_decimal(text, n / 10);
    }
    text.append(digit_str((n % 10) as u8));
}

/// Appends the decimal notation of `a - b` to `text`.
pub fn push_difference(text: &mut String, a: u64, b: u64)
    ensures
        final(text)@ == old(text)@ + signed_decimal(a - b),
{
    if a < b {
        proof {
            reveal_strlit("-");
        }
        text.append("-");
        push_decimal(text, b - a);
    } else {
        push_decimal(text, a - b);
    }
}

/// The bytes in hexadecimal notation, two upper case digits each.
pub fn hex(value: &[u8]) -> (text: String)
    ensures
        text@ == hex_chars(value@),
{
    let mut text = String::new();
    let mut k: usize = 0;
    while k < value.len()
        invariant
            k <= value.len(),
            text@ == hex_chars(value@.take(k as int)),
        decreases value.len() - k,
    {
        text.append(digit_str(value[k] / 16));
        text.append(digit_str(value[k] % 16));
        k = k + 1;
        assert(value@.take(k as int).drop_last() == value@.take(k - 1));
    }
    assert(value@.take(k as int) == value@);
    text
}

} // verus!
