//! Decimal numbers in text.

use vstd::arithmetic::power::{lemma_pow0, pow};
use vstd::prelude::*;
use vstd::string::*;

use crate::lex::numeral;

verus! {

/// The character of a decimal digit.
pub open spec fn digit_char(d: nat) -> char {
    (48 + d) as char
}

/// Whether a character is a decimal digit.
pub open spec fn is_digit(c: char) -> bool {
    '0' <= c <= '9'
}

/// The `width` lowest decimal digits of `n`.
pub open spec fn padded(n: nat, width: nat) -> Seq<char>
    decreases width,
{
    if width == 0 {
        Seq::empty()
    } else {
        padded(n / 10, (width - 1) as nat).push(digit_char(n % 10))
    }
}

/// `n` in decimal, without leading zeros.
pub open spec fn decimal(n: nat) -> Seq<char>
    decreases n,
{
    if n < 10 {
        seq![digit_char(n)]
    } else {
        decimal(n / 10).push(digit_char(n % 10))
    }
}

/// The number that a string of decimal digits stands for.
pub open spec fn digits_value(s: Seq<char>) -> nat
    decreases s.len(),
{
    if s.len() == 0 {
        0
    } else {
        (digits_value(s.drop_last()) * 10 + (s.last() as int - 48)) as nat
    }
}

/// Whether every character is a decimal digit.
pub open spec fn all_digits(s: Seq<char>) -> bool {
    forall|i: int| 0 <= i < s.len() ==> #[trigger] is_digit(s[i])
}

/// The bytes of ASCII text.
pub open spec fn ascii(s: Seq<char>) -> Seq<u8> {
    Seq::new(s.len(), |i: int| s[i] as u8)
}

/// Padded text has its width, consists of digits, and is a numeral in base ten.
pub proof fn lemma_padded(n: nat, width: nat)
    ensures
        padded(n, width).len() == width,
        all_digits(padded(n, width)),
        ascii(padded(n, width)) == numeral(n, width, 10, 48),
    decreases width,
{
    if width == 0 {
        assert(ascii(padded(n, width)) =~= numeral(n, width, 10, 48));
    } else {
        lemma_padded(n / 10, (width - 1) as nat);
        let c = digit_char(n % 10);
        assert(c as int == 48 + n % 10);
        assert(ascii(padded(n, width)) =~= numeral(n, width, 10, 48));
    }
}

/// Reading padded text back gives the number, where the width holds it.
pub proof fn lemma_padded_round_trip(n: nat, width: nat)
    requires
        n < pow(10, width),
    ensures
        digits_value(padded(n, width)) == n,
    decreases width,
{
    if width == 0 {
        vstd::arithmetic::power::lemma_pow0(10);
    } else {
        let w = (width - 1) as nat;
        vstd::arithmetic::power::lemma_pow_adds(10, 1, w);
        vstd::arithmetic::power::lemma_pow1(10);
        assert(n / 10 < pow(10, w));
        lemma_padded_round_trip(n / 10, w);
        let s = padded(n, width);
        assert(s.drop_last() =~= padded(n / 10, w));
        assert(s.last() as int == 48 + n % 10);
    }
}

/// Digits are the padded text of the number they stand for.
pub proof fn lemma_digits_are_padded(s: Seq<char>)
    requires
        all_digits(s),
    ensures
        padded(digits_value(s), s.len()) == s,
    decreases s.len(),
{
    if s.len() > 0 {
        let head = s.drop_last();
        let d = s.last() as int - 48;
        assert(is_digit(s[s.len() - 1]));
        assert(all_digits(head)) by {
            assert forall|i: int| 0 <= i < head.len() implies #[trigger] is_digit(head[i]) by {
                assert(is_digit(s[i]));
            }
        }
        lemma_digits_are_padded(head);
        let n = digits_value(s);
        assert(n == digits_value(head) * 10 + d);
        assert(n / 10 == digits_value(head) && n % 10 == d);
        assert(digit_char(n % 10) == s.last());
    }
    assert(padded(digits_value(s), s.len()) =~= s);
}

/// A longer string of digits stands for no smaller a number.
proof fn lemma_prefix_value(s: Seq<char>, k: int)
    requires
        0 <= k <= s.len(),
        all_digits(s),
    ensures
        digits_value(s.take(k)) <= digits_value(s),
    decreases s.len() - k,
{
    if k == s.len() {
        assert(s.take(k) =~= s);
    } else {
        lemma_prefix_value(s, k + 1);
        assert(s.take(k + 1).drop_last() =~= s.take(k));
        assert(is_digit(s[k]));
    }
}

fn digit(d: u64) -> (r: &'static str)
    requires
        d < 10,
    ensures
        r@ == seq![digit_char(d as nat)],
{
    proof {
        reveal_strlit("0");
        reveal_strlit("1");
        reveal_strlit("2");
        reveal_strlit("3");
        reveal_strlit("4");
        reveal_strlit("5");
        reveal_strlit("6");
        reveal_strlit("7");
        reveal_strlit("8");
        reveal_strlit("9");
    }
    let r: &'static str = if d == 0 {
        "0"
    } else if d == 1 {
        "1"
    } else if d == 2 {
        "2"
    } else if d == 3 {
        "3"
    } else if d == 4 {
        "4"
    } else if d == 5 {
        "5"
    } else if d == 6 {
        "6"
    } else if d == 7 {
        "7"
    } else if d == 8 {
        "8"
    } else {
        "9"
    };
    assert(r@ =~= seq![digit_char(d as nat)]);
    r
}

/// Append the `width` lowest decimal digits of `n`.
pub fn push_padded(out: &mut String, n: u64, width: usize)
    ensures
        final(out)@ == old(out)@ + padded(n as nat, width as nat),
    decreases width,
{
    if width > 0 {
        push_padded(out, n / 10, width - 1);
        out.append(digit(n % 10));
    }
    assert(out@ =~= old(out)@ + padded(n as nat, width as nat));
}

/// Append `n` in decimal.
pub fn push_decimal(out: &mut String, n: u64)
    ensures
        final(out)@ == old(out)@ + decimal(n as nat),
    decreases n,
{
    if n >= 10 {
        push_decimal(out, n / 10);
    }
    out.append(digit(n % 10));
    assert(out@ =~= old(out)@ + decimal(n as nat));
}

/// Read the number written in the ASCII bytes `lo..hi` of `s`: digits throughout, and no more
/// than `max`.
pub(crate) fn parse_digits(
    s: &[u8],
    lo: usize,
    hi: usize,
    max: u64,
    Ghost(text): Ghost<Seq<char>>,
) -> (r: Option<u64>)
    requires
        lo <= hi <= s@.len(),
        text.len() == s@.len(),
        forall|i: int| 0 <= i < text.len() ==> s@[i] == #[trigger] text[i] as u8,
        forall|i: int| 0 <= i < text.len() ==> 0 <= #[trigger] text[i] as int <= 127,
    ensures
        ({
            let digits = text.subrange(lo as int, hi as int);
            match r {
                Some(n) => all_digits(digits) && n == digits_value(digits) && n <= max,
                None => !all_digits(digits) || digits_value(digits) > max,
            }
        }),
{
    let ghost digits = text.subrange(lo as int, hi as int);
    let mut i: usize = lo;
    let mut n: u64 = 0;
    while i < hi
        invariant
            lo <= i <= hi <= s@.len(),
            text.len() == s@.len(),
            forall|j: int| 0 <= j < text.len() ==> s@[j] == #[trigger] text[j] as u8,
            forall|j: int| 0 <= j < text.len() ==> 0 <= #[trigger] text[j] as int <= 127,
            digits == text.subrange(lo as int, hi as int),
            all_digits(digits.take(i - lo)),
            n == digits_value(digits.take(i - lo)),
            n <= max,
        decreases hi - i,
    {
        let ghost k = i - lo;
        assert(digits[k] == text[i as int]);
        assert(digits.take(k + 1).drop_last() =~= digits.take(k));
        if s[i] < 48 || s[i] > 57 {
            assert(!is_digit(digits[k]));
            return None;
        }
        let d: u64 = (s[i] - 48) as u64;
        assert(is_digit(digits[k]));
        assert(all_digits(digits.take(k + 1))) by {
            assert forall|j: int| 0 <= j < k + 1 implies #[trigger] is_digit(
                digits.take(k + 1)[j],
            ) by {
                if j < k {
                    assert(is_digit(digits.take(k)[j]));
                }
            }
        }
        assert(digits_value(digits.take(k + 1)) == n * 10 + d);
        if d > max || n > (max - d) / 10 {
            proof {
                if all_digits(digits) {
                    lemma_prefix_value(digits, k + 1);
                }
            }
            return None;
        }
        n = n * 10 + d;
        i = i + 1;
    }
    assert(digits.take(hi - lo) =~= digits);
    Some(n)
}

// ---- the digits are those of the number

/// Padded text shows each decimal digit of the number in its place.
pub proof fn padded_text_shows_each_digit(n: nat, width: nat, i: int)
    requires
        0 <= i < width,
    ensures
        padded(n, width).len() == width,
        padded(n, width)[i] as int == 48 + (n as int / pow(10, (width - 1 - i) as nat)) % 10,
    decreases width,
{
    lemma_padded(n, width);
    if i == width - 1 {
        lemma_pow0(10);
    } else {
        let e = (width - 2 - i) as nat;
        lemma_padded(n / 10, (width - 1) as nat);
        padded_text_shows_each_digit(n / 10, (width - 1) as nat, i);
        vstd::arithmetic::power::lemma_pow_positive(10, e);
        vstd::arithmetic::power::lemma_pow_adds(10, 1, e);
        vstd::arithmetic::power::lemma_pow1(10);
        vstd::arithmetic::div_mod::lemma_div_denominator(n as int, 10, pow(10, e));
    }
}

/// A number in decimal has as many digits as it takes and no more, and shows each in its place.
pub proof fn a_number_shows_its_digits(n: nat, i: int)
    ensures
        decimal(n).len() >= 1,
        n < pow(10, decimal(n).len()),
        decimal(n).len() > 1 ==> n >= pow(10, (decimal(n).len() - 1) as nat),
        0 <= i < decimal(n).len() ==> decimal(n)[i] as int == 48 + (n as int / pow(
            10,
            (decimal(n).len() - 1 - i) as nat,
        )) % 10,
{
    lemma_decimal_is_padded(n);
    if 0 <= i < decimal(n).len() {
        padded_text_shows_each_digit(n, decimal(n).len(), i);
    }
}

proof fn lemma_decimal_is_padded(n: nat)
    ensures
        decimal(n).len() >= 1,
        decimal(n) == padded(n, decimal(n).len()),
        n < pow(10, decimal(n).len()),
        decimal(n).len() > 1 ==> n >= pow(10, (decimal(n).len() - 1) as nat),
    decreases n,
{
    lemma_pow0(10);
    vstd::arithmetic::power::lemma_pow1(10);
    if n < 10 {
        assert(padded(n / 10, 0) =~= Seq::empty());
        assert(padded(n, 1) =~= decimal(n));
    } else {
        lemma_decimal_is_padded(n / 10);
        let w = decimal(n / 10).len();
        assert(decimal(n).len() == w + 1);
        assert(padded(n, w + 1) =~= decimal(n));
        vstd::arithmetic::power::lemma_pow_adds(10, 1, w);
        if w > 1 {
            vstd::arithmetic::power::lemma_pow_adds(10, 1, (w - 1) as nat);
        }
    }
}

/// A digit more makes a number ten times what it was, and the digit.
pub proof fn a_digit_more_multiplies_by_ten(s: Seq<char>, digit: char)
    requires
        all_digits(s),
        '0' <= digit <= '9',
    ensures
        digits_value(Seq::empty()) == 0,
        digits_value(s.push(digit)) == digits_value(s) * 10 + (digit as int - 48),
{
    assert(s.push(digit).drop_last() =~= s);
}

/// Numbers are appended to a text in their digits, padded and not.
pub proof fn numbers_are_appended_in_decimal(
    a: &mut String,
    b: &mut String,
    n: u64,
    width: usize,
)
    requires
        call_ensures(push_padded, (a, n, width), ()),
        call_ensures(push_decimal, (b, n), ()),
    ensures
        final(a)@ == old(a)@ + padded(n as nat, width as nat),
        final(b)@ == old(b)@ + decimal(n as nat),
{
}

} // verus!
