//! Text: decimal numerals and UTF-8.

use vstd::arithmetic::div_mod;
use vstd::arithmetic::power;
use vstd::prelude::*;

verus! {

/// The character of a decimal digit.
pub open spec fn digit(d: nat) -> char {
    if d == 0 {
        '0'
    } else if d == 1 {
        '1'
    } else if d == 2 {
        '2'
    } else if d == 3 {
        '3'
    } else if d == 4 {
        '4'
    } else if d == 5 {
        '5'
    } else if d == 6 {
        '6'
    } else if d == 7 {
        '7'
    } else if d == 8 {
        '8'
    } else {
        '9'
    }
}

/// The decimal numeral of a number.
pub open spec fn decimal(n: nat) -> Seq<char>
    decreases n,
{
    if n < 10 {
        seq![digit(n)]
    } else {
        decimal(n / 10).push(digit(n % 10))
    }
}

fn digit_text(d: u64) -> (text: &'static str)
    requires
        d < 10,
    ensures
        text@ == seq![digit(d as nat)],
{
    proof {
        reveal_strlit("0");
        reveal_strlit("1");
        reveal_strlit("2");
        reveal_strlit("3");
        reveal_strlit("4");
        reveal_strlit("5");
        reveal_strlit("6");
        reveal_strlit("7");
        reveal_strlit("8");
        reveal_strlit("9");
    }
    let text = match d {
        0 => "0",
        1 => "1",
        2 => "2",
        3 => "3",
        4 => "4",
        5 => "5",
        6 => "6",
        7 => "7",
        8 => "8",
        _ => "9",
    };
    assert(text@ =~= seq![digit(d as nat)]);
    text
}

/// Appends the decimal numeral of `n`.
pub fn push_decimal(out: &mut String, n: u64)
    ensures
        final(out)@ == old(out)@ + decimal(n as nat),
    decreases n,
{
    if n >= 10 {
        push_decimal(out, n / 10);
    }
    out.append(digit_text(n % 10));
    proof {
        assert(out@ =~= old(out)@ + decimal(n as nat));
    }
}

/// The decimal numeral of `n`.
pub fn decimal_text(n: u64) -> (text: String)
    ensures
        text@ == decimal(n as nat),
{
    let mut text = String::new();
    push_decimal(&mut text, n);
    proof {
        assert(text@ =~= decimal(n as nat));
    }
    text
}

/// The character of a hexadecimal digit.
pub open spec fn hex_digit(d: nat) -> char {
    if d < 10 {
        digit(d)
    } else if d == 10 {
        'a'
    } else if d == 11 {
        'b'
    } else if d == 12 {
        'c'
    } else if d == 13 {
        'd'
    } else if d == 14 {
        'e'
    } else {
        'f'
    }
}

/// A byte in two hexadecimal digits.
pub open spec fn hex_byte(b: u8) -> Seq<char> {
    seq![hex_digit(b as nat / 16), hex_digit(b as nat % 16)]
}

/// The bytes in hexadecimal, with a space between two.
pub open spec fn hex_list(bytes: Seq<u8>) -> Seq<char>
    decreases bytes.len(),
{
    if bytes.len() == 0 {
        seq![]
    } else if bytes.len() == 1 {
        hex_byte(bytes[0])
    } else {
        hex_list(bytes.drop_last()) + " "@ + hex_byte(bytes.last())
    }
}

fn hex_digit_text(d: u8) -> (text: &'static str)
    requires
        d < 16,
    ensures
        text@ == seq![hex_digit(d as nat)],
{
    if d < 10 {
        return digit_text(d as u64);
    }
    proof {
        reveal_strlit("a");
        reveal_strlit("b");
        reveal_strlit("c");
        reveal_strlit("d");
        reveal_strlit("e");
        reveal_strlit("f");
    }
    let text = match d {
        10 => "a",
        11 => "b",
        12 => "c",
        13 => "d",
        14 => "e",
        _ => "f",
    };
    assert(text@ =~= seq![hex_digit(d as nat)]);
    text
}

/// The first bytes, `limit` at most, in hexadecimal.
pub fn hex_text(bytes: &[u8], limit: usize) -> (text: String)
    ensures
        text@ == hex_list(bytes@.take(if bytes@.len() < limit { bytes@.len() as int } else { limit as int })),
{
    let n: usize = if bytes.len() < limit { bytes.len() } else { limit };
    let mut text = String::new();
    let mut i: usize = 0;
    proof {
        assert(bytes@.take(0) =~= seq![]);
        assert(text@ =~= hex_list(bytes@.take(0)));
    }
    while i < n
        invariant
            i <= n <= bytes@.len(),
            text@ == hex_list(bytes@.take(i as int)),
        decreases n - i,
    {
        let b: u8 = bytes[i];
        if i > 0 {
            text.append(" ");
        }
        text.append(hex_digit_text(b / 16));
        text.append(hex_digit_text(b % 16));
        proof {
            assert(bytes@.take(i + 1).drop_last() =~= bytes@.take(i as int));
            assert(bytes@.take(i + 1).last() == b);
            assert(text@ =~= hex_list(bytes@.take(i + 1)));
        }
        i += 1;
    }
    text
}

/// Calls `std::str::from_utf8` and copies the text out. It is taken to accept
/// exactly the byte strings that are valid UTF-8, and to give the characters
/// that they encode.
#[verifier::external_body]
pub(crate) fn text_of_utf8(bytes: &[u8]) -> (text: Option<String>)
    ensures
        match text {
            Some(t) => vstd::utf8::valid_utf8(bytes@) && t@ == vstd::utf8::decode_utf8(bytes@),
            None => !vstd::utf8::valid_utf8(bytes@),
        },
{
    match std::str::from_utf8(bytes) {
        Ok(text) => Some(text.to_string()),
        Err(_) => None,
    }
}

/// The text that a byte string encodes in UTF-8, if it does.
pub open spec fn utf8_text(bytes: Seq<u8>) -> Option<Seq<char>> {
    if vstd::utf8::valid_utf8(bytes) {
        Some(vstd::utf8::decode_utf8(bytes))
    } else {
        None
    }
}

/// What is encoded is decoded again.
pub proof fn lemma_utf8_round_trip(text: Seq<char>)
    ensures
        utf8_text(vstd::utf8::encode_utf8(text)) == Some(text),
{
    broadcast use vstd::utf8::encode_utf8_valid_utf8, vstd::utf8::encode_utf8_decode_utf8;

}

/// A number is written in decimal digits, the highest first, and without a
/// leading zero.
pub proof fn law_digits_of_a_number(n: nat, i: nat)
    ensures
        ({
            let s = decimal(n);
            &&& s.len() >= 1
            &&& n < power::pow(10, s.len())
            &&& s.len() > 1 ==> n >= power::pow(10, (s.len() - 1) as nat)
            &&& i < s.len() ==> s[s.len() - 1 - i] as int == '0' as int + (n as int / power::pow(10, i)) % 10
        }),
    decreases n,
{
    let s = decimal(n);
    power::lemma_pow0(10);
    power::lemma_pow1(10);
    lemma_digit(n % 10);
    if n < 10 {
        lemma_digit(n);
    } else {
        let rest = decimal(n / 10);
        let m = rest.len();
        let before: nat = if i > 0 {
            (i - 1) as nat
        } else {
            0
        };
        law_digits_of_a_number(n / 10, before);
        assert(power::pow(10, (m + 1) as nat) == 10 * power::pow(10, m)) by {
            reveal(power::pow);
        }
        if m > 1 {
            assert(power::pow(10, m) == 10 * power::pow(10, (m - 1) as nat)) by {
                reveal(power::pow);
            }
        }
        if i > 0 {
            reveal(power::pow);
            power::lemma_pow_positive(10, before);
            div_mod::lemma_div_denominator(n as int, 10, power::pow(10, before));
        }
    }
}

proof fn lemma_digit(d: nat)
    ensures
        d < 10 ==> digit(d) as int == '0' as int + d,
{
}

/// Different numbers are written differently.
pub proof fn law_numbers_are_told_apart(a: nat, b: nat)
    requires
        decimal(a) == decimal(b),
    ensures
        a == b,
    decreases a,
{
    let s = decimal(a);
    law_digits_of_a_number(a, 0);
    law_digits_of_a_number(b, 0);
    power::lemma_pow0(10);
    power::lemma_pow1(10);
    if a >= 10 && b >= 10 {
        assert(s.drop_last() =~= decimal(a / 10));
        assert(decimal(b).drop_last() =~= decimal(b / 10));
        law_numbers_are_told_apart(a / 10, b / 10);
    } else {
        law_digits_of_a_number(a / 10, 0);
        law_digits_of_a_number(b / 10, 0);
    }
}

/// No digit is anything but a digit.
pub proof fn lemma_only_digits(n: nat, i: int)
    requires
        0 <= i < decimal(n).len(),
    ensures
        '0' as int <= decimal(n)[i] as int <= '9' as int,
{
    law_digits_of_a_number(n, (decimal(n).len() - 1 - i) as nat);
}

/// Bytes are shown in two digits to the base of sixteen each, the higher first,
/// with a blank between two bytes.
pub proof fn law_bytes_are_shown_in_two_digits(bytes: Seq<u8>, i: int)
    requires
        0 <= i < bytes.len(),
    ensures
        ({
            let s = hex_list(bytes);
            let high = bytes[i] / 16;
            let low = bytes[i] % 16;
            &&& s.len() == 3 * bytes.len() - 1
            &&& s[3 * i] as int == if high < 10 {
                '0' as int + high
            } else {
                'a' as int + high - 10
            }
            &&& s[3 * i + 1] as int == if low < 10 {
                '0' as int + low
            } else {
                'a' as int + low - 10
            }
            &&& i < bytes.len() - 1 ==> s[3 * i + 2] == ' '
        }),
    decreases bytes.len(),
{
    reveal_strlit(" ");
    let n = bytes.len() - 1;
    if n > 0 {
        let less = bytes.drop_last();
        if i < n {
            assert(less[i] == bytes[i]);
            law_bytes_are_shown_in_two_digits(less, i);
        } else {
            law_bytes_are_shown_in_two_digits(less, 0);
        }
    }
}

} // verus!
