//! Numbers and bytes as text: decimal digits and lowercase hexadecimal.

use vstd::prelude::*;
use vstd::string::*;

verus! {

/// The ASCII digit for a value below ten.
pub open spec fn digit_byte(d: nat) -> u8 {
    (0x30 + d) as u8
}

/// The decimal digits of `n` in ASCII, without leading zeros.
pub open spec fn decimal_digits(n: nat) -> Seq<u8>
    decreases n,
{
    if n < 10 {
        seq![digit_byte(n)]
    } else {
        decimal_digits(n / 10).push(digit_byte(n % 10))
    }
}

/// Whether `s` is one or more ASCII digits.
pub open spec fn is_digits(s: Seq<u8>) -> bool {
    s.len() > 0 && forall|i: int| 0 <= i < s.len() ==> 0x30 <= #[trigger] s[i] <= 0x39
}

/// The number that the ASCII digits `s` spell in decimal.
pub open spec fn decimal_value(s: Seq<u8>) -> nat
    decreases s.len(),
{
    if s.len() == 0 {
        0
    } else {
        decimal_value(s.drop_last()) * 10 + (s.last() - 0x30) as nat
    }
}

/// The digits of a number are digits, and spell that number.
pub proof fn lemma_decimal_round_trip(n: nat)
    ensures
        is_digits(decimal_digits(n)),
        decimal_value(decimal_digits(n)) == n,
    decreases n,
{
    let s = decimal_digits(n);
    if n < 10 {
        assert(s.drop_last() =~= Seq::<u8>::empty());
        assert(decimal_value(s.drop_last()) == 0);
    } else {
        lemma_decimal_round_trip(n / 10);
        assert(s.drop_last() =~= decimal_digits(n / 10));
    }
}

/// How many digits a number has, up to five, and that a larger number has
/// more.
pub proof fn lemma_digit_count(n: nat)
    ensures
        n < 10 ==> decimal_digits(n).len() == 1,
        10 <= n < 100 ==> decimal_digits(n).len() == 2,
        100 <= n < 1000 ==> decimal_digits(n).len() == 3,
        1000 <= n < 10000 ==> decimal_digits(n).len() == 4,
        10000 <= n < 100000 ==> decimal_digits(n).len() == 5,
        100000 <= n ==> decimal_digits(n).len() >= 6,
    decreases n,
{
    if n >= 10 {
        lemma_digit_count(n / 10);
    }
}

/// The digits of `n` that are still to be written when `rest` is what is
/// left of it after division: none once nothing is left.
spec fn leading_digits(rest: nat) -> Seq<u8> {
    if rest == 0 {
        Seq::empty()
    } else {
        decimal_digits(rest)
    }
}

/// Writes `n` in decimal.
pub fn to_decimal(n: u64) -> (digits: Vec<u8>)
    ensures
        digits@ == decimal_digits(n as nat),
{
    let mut digits: Vec<u8> = Vec::new();
    digits.push(0x30 + (n % 10) as u8);
    let mut rest: u64 = n / 10;
    assert(leading_digits(rest as nat) + digits@ =~= decimal_digits(n as nat));
    while rest > 0
        invariant
            leading_digits(rest as nat) + digits@ == decimal_digits(n as nat),
        decreases rest,
    {
        let ghost before = digits@;
        let d: u8 = 0x30 + (rest % 10) as u8;
        digits.insert(0, d);
        assert(leading_digits((rest / 10) as nat) + digits@ =~= leading_digits(rest as nat)
            + before);
        rest = rest / 10;
    }
    assert(leading_digits(0) + digits@ =~= digits@);
    digits
}

/// The decimal digits of `n` as characters. (Below ten a hexadecimal digit
/// is the decimal digit.)
pub open spec fn decimal_text(n: nat) -> Seq<char> {
    Seq::new(decimal_digits(n).len(), |i: int| hex_digit(decimal_digits(n)[i] - 0x30))
}

/// Writes `n` in decimal, as text.
pub fn to_decimal_string(n: u64) -> (text: String)
    ensures
        text@ == decimal_text(n as nat),
{
    let digits = to_decimal(n);
    proof {
        lemma_decimal_round_trip(n as nat);
    }
    let mut text = String::new();
    let mut i: usize = 0;
    while i < digits.len()
        invariant
            i <= digits@.len(),
            digits@ == decimal_digits(n as nat),
            is_digits(digits@),
            text@ == decimal_text(n as nat).take(i as int),
        decreases digits@.len() - i,
    {
        let ghost before = text@;
        text.append(hex_digit_str(digits[i] - 0x30));
        assert(text@ =~= decimal_text(n as nat).take(i + 1)) by {
            assert(text@ == before + seq![hex_digit(digits@[i as int] - 0x30)]);
        }
        i += 1;
    }
    assert(decimal_text(n as nat).take(i as int) =~= decimal_text(n as nat));
    text
}

/// The lowercase hexadecimal digit for a value below sixteen.
pub open spec fn hex_digit(n: int) -> char {
    if n == 0 {
        '0'
    } else if n == 1 {
        '1'
    } else if n == 2 {
        '2'
    } else if n == 3 {
        '3'
    } else if n == 4 {
        '4'
    } else if n == 5 {
        '5'
    } else if n == 6 {
        '6'
    } else if n == 7 {
        '7'
    } else if n == 8 {
        '8'
    } else if n == 9 {
        '9'
    } else if n == 10 {
        'a'
    } else if n == 11 {
        'b'
    } else if n == 12 {
        'c'
    } else if n == 13 {
        'd'
    } else if n == 14 {
        'e'
    } else {
        'f'
    }
}

/// The bytes `bytes` in lowercase hexadecimal, two digits for each byte.
pub open spec fn hex_text(bytes: Seq<u8>) -> Seq<char>
    decreases bytes.len(),
{
    if bytes.len() == 0 {
        Seq::empty()
    } else {
        hex_text(bytes.drop_last()).push(hex_digit(bytes.last() as int / 16)).push(
            hex_digit(bytes.last() as int % 16),
        )
    }
}

/// The text of two byte strings, one after the other, is the text of the
/// first followed by the text of the second.
pub proof fn lemma_hex_text_concat(a: Seq<u8>, b: Seq<u8>)
    ensures
        hex_text(a + b) == hex_text(a) + hex_text(b),
        hex_text(a).len() == 2 * a.len(),
    decreases b.len(),
{
    lemma_hex_text_len(a);
    if b.len() == 0 {
        assert(a + b =~= a);
        assert(hex_text(a) + hex_text(b) =~= hex_text(a));
    } else {
        lemma_hex_text_concat(a, b.drop_last());
        assert((a + b).drop_last() =~= a + b.drop_last());
        assert(hex_text(a + b) =~= hex_text(a) + hex_text(b));
    }
}

/// Hexadecimal text has two characters for each byte.
pub proof fn lemma_hex_text_len(a: Seq<u8>)
    ensures
        hex_text(a).len() == 2 * a.len(),
    decreases a.len(),
{
    if a.len() > 0 {
        lemma_hex_text_len(a.drop_last());
    }
}

fn hex_digit_str(n: u8) -> (s: &'static str)
    requires
        n < 16,
    ensures
        s@ == seq![hex_digit(n as int)],
{
    proof {
        reveal_strlit("0");
        reveal_strlit("1");
        reveal_strlit("2");
        reveal_strlit("3");
        reveal_strlit("4");
        reveal_strlit("5");
        reveal_strlit("6");
        reveal_strlit("7");
        reveal_strlit("8");
        reveal_strlit("9");
        reveal_strlit("a");
        reveal_strlit("b");
        reveal_strlit("c");
        reveal_strlit("d");
        reveal_strlit("e");
        reveal_strlit("f");
    }
    let s = if n == 0 {
        "0"
    } else if n == 1 {
        "1"
    } else if n == 2 {
        "2"
    } else if n == 3 {
        "3"
    } else if n == 4 {
        "4"
    } else if n == 5 {
        "5"
    } else if n == 6 {
        "6"
    } else if n == 7 {
        "7"
    } else if n == 8 {
        "8"
    } else if n == 9 {
        "9"
    } else if n == 10 {
        "a"
    } else if n == 11 {
        "b"
    } else if n == 12 {
        "c"
    } else if n == 13 {
        "d"
    } else if n == 14 {
        "e"
    } else {
        "f"
    };
    assert(s@ =~= seq![hex_digit(n as int)]);
    s
}

/// Writes `bytes` in lowercase hexadecimal.
pub fn bytes_to_hex(bytes: &[u8]) -> (text: String)
    ensures
        text@ == hex_text(bytes@),
{
    let mut text = String::new();
    let mut i: usize = 0;
    while i < bytes.len()
        invariant
            i <= bytes@.len(),
            text@ == hex_text(bytes@.take(i as int)),
        decreases bytes@.len() - i,
    {
        let b = bytes[i];
        let ghost before = text@;
        text.append(hex_digit_str(b / 16));
        text.append(hex_digit_str(b % 16));
        proof {
            let upto = bytes@.take(i + 1);
            assert(upto.drop_last() =~= bytes@.take(i as int));
            assert(text@ =~= before.push(hex_digit(b as int / 16)).push(hex_digit(b as int % 16)));
        }
        i += 1;
    }
    assert(bytes@.take(i as int) =~= bytes@);
    text
}

} // verus!
