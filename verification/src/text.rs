//! Decimal numbers in text.
use vstd::prelude::*;

verus! {

/// The character of a decimal digit.
pub open spec fn digit(d: int) -> char {
    (48 + d) as char
}

/// The decimal digits of a number, without leading zeros.
pub open spec fn decimal(n: int) -> Seq<char>
    decreases n,
{
    if n < 10 {
        seq![digit(n)]
    } else {
        decimal(n / 10).push(digit(n % 10))
    }
}

/// The last `width` decimal digits of a number, leading zeros included.
pub open spec fn padded(n: int, width: int) -> Seq<char>
    decreases width,
{
    if width <= 0 {
        Seq::empty()
    } else {
        padded(n / 10, width - 1).push(digit(n % 10))
    }
}

/// A number given in hundredths, with two decimals.
pub open spec fn hundredths(n: int) -> Seq<char> {
    decimal(n / 100) + "."@ + padded(n % 100, 2)
}

/// Append one digit.
pub fn append_digit(s: &mut String, d: u64)
    requires
        d < 10,
    ensures
        final(s)@ == old(s)@.push(digit(d as int)),
{
    proof {
        reveal_strlit("0");
        reveal_strlit("1");
        reveal_strlit("2");
        reveal_strlit("3");
        reveal_strlit("4");
        reveal_strlit("5");
        reveal_strlit("6");
        reveal_strlit("7");
        reveal_strlit("8");
        reveal_strlit("9");
    }
    let one: &str = if d == 0 {
        "0"
    } else if d == 1 {
        "1"
    } else if d == 2 {
        "2"
    } else if d == 3 {
        "3"
    } else if d == 4 {
        "4"
    } else if d == 5 {
        "5"
    } else if d == 6 {
        "6"
    } else if d == 7 {
        "7"
    } else if d == 8 {
        "8"
    } else {
        "9"
    };
    s.append(one);
    assert(s@ =~= old(s)@.push(digit(d as int)));
}

/// Append a number in decimal.
pub fn append_decimal(s: &mut String, n: u64)
    ensures
        final(s)@ == old(s)@ + decimal(n as int),
    decreases n,
{
    if n >= 10 {
        append_decimal(s, n / 10);
    }
    append_digit(s, n % 10);
    assert(s@ =~= old(s)@ + decimal(n as int));
}

/// Append the last `width` digits of a number.
pub fn append_padded(s: &mut String, n: u64, width: u32)
    ensures
        final(s)@ == old(s)@ + padded(n as int, width as int),
    decreases width,
{
    if width > 0 {
        append_padded(s, n / 10, width - 1);
        append_digit(s, n % 10);
    }
    assert(s@ =~= old(s)@ + padded(n as int, width as int));
}

/// Append a number given in hundredths with two decimals.
pub fn append_hundredths(s: &mut String, n: u64)
    ensures
        final(s)@ == old(s)@ + hundredths(n as int),
{
    append_decimal(s, n / 100);
    s.append(".");
    append_padded(s, n % 100, 2);
    assert(s@ =~= old(s)@ + hundredths(n as int));
}

/// The number that decimal digits write, given as bytes.
pub open spec fn number(digits: Seq<u8>) -> int
    decreases digits.len(),
{
    if digits.len() == 0 {
        0
    } else {
        10 * number(digits.drop_last()) + (digits.last() - 48)
    }
}

/// The bytes are decimal digits.
pub open spec fn are_digits(digits: Seq<u8>) -> bool {
    forall|i: int| 0 <= i < digits.len() ==> 48 <= #[trigger] digits[i] <= 57
}

/// A decimal digit after a text.
proof fn lemma_digit_bytes(s: Seq<char>, d: int)
    requires
        vstd::utf8::is_ascii_chars(s),
        are_digits(vstd::utf8::encode_utf8(s)),
        0 <= d < 10,
    ensures
        vstd::utf8::is_ascii_chars(s.push(digit(d))),
        vstd::utf8::encode_utf8(s.push(digit(d))).len() == s.len() + 1,
        are_digits(vstd::utf8::encode_utf8(s.push(digit(d)))),
        number(vstd::utf8::encode_utf8(s.push(digit(d)))) == 10 * number(
            vstd::utf8::encode_utf8(s),
        ) + d,
{
    let t = s.push(digit(d));
    let (a, b) = (vstd::utf8::encode_utf8(s), vstd::utf8::encode_utf8(t));
    vstd::utf8::is_ascii_chars_encode_utf8(s);
    vstd::utf8::is_ascii_chars_encode_utf8(t);
    assert(b.drop_last() =~= a) by {
        assert forall|i: int| 0 <= i < a.len() implies b[i] == a[i] by {
            assert(t[i] == s[i]);
        }
    }
    assert(b.last() == t[s.len() as int] as u8);
    assert forall|i: int| 0 <= i < b.len() implies 48 <= #[trigger] b[i] <= 57 by {
        if i < a.len() {
            assert(b[i] == a[i]);
        }
    }
}

/// The decimal digits of a number write it.
pub proof fn lemma_decimal_writes(n: int)
    requires
        0 <= n,
    ensures
        vstd::utf8::is_ascii_chars(decimal(n)),
        are_digits(vstd::utf8::encode_utf8(decimal(n))),
        number(vstd::utf8::encode_utf8(decimal(n))) == n,
    decreases n,
{
    if n < 10 {
        let none = Seq::<char>::empty();
        vstd::utf8::is_ascii_chars_encode_utf8(none);
        lemma_digit_bytes(none, n);
        assert(none.push(digit(n)) =~= decimal(n));
    } else {
        lemma_decimal_writes(n / 10);
        lemma_digit_bytes(decimal(n / 10), n % 10);
    }
}

/// Leading zeros included, the digits of a number write what is left of it.
pub proof fn lemma_padded_writes(n: int, width: int)
    requires
        0 <= n,
        0 <= width,
    ensures
        padded(n, width).len() == width,
        vstd::utf8::is_ascii_chars(padded(n, width)),
        are_digits(vstd::utf8::encode_utf8(padded(n, width))),
        n < vstd::arithmetic::power::pow(10, width as nat) ==> number(
            vstd::utf8::encode_utf8(padded(n, width)),
        ) == n,
    decreases width,
{
    if width == 0 {
        vstd::utf8::is_ascii_chars_encode_utf8(Seq::<char>::empty());
        vstd::arithmetic::power::lemma_pow0(10);
    } else {
        lemma_padded_writes(n / 10, width - 1);
        lemma_digit_bytes(padded(n / 10, width - 1), n % 10);
        reveal(vstd::arithmetic::power::pow);
        let rest = vstd::arithmetic::power::pow(10, (width - 1) as nat);
        assert(vstd::arithmetic::power::pow(10, width as nat) == 10 * rest);
    }
}

} // verus!
