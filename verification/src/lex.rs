//! Byte strings in dictionary order, and fixed-width numerals that sort by value.
//!
//! Keys of a store are read in dictionary order; chain positions are read in chain
//! order. What is proved here makes the two agree.

use vstd::arithmetic::power::{lemma_pow0, pow};
use vstd::prelude::*;

verus! {

/// `a` and `b` agree before place `i`, where `a` ends or holds the smaller byte.
pub open spec fn parts_at(a: Seq<u8>, b: Seq<u8>, i: int) -> bool {
    &&& 0 <= i <= a.len()
    &&& i < b.len()
    &&& forall|j: int| 0 <= j < i ==> a[j] == b[j]
    &&& i < a.len() ==> a[i] < b[i]
}

/// `a` comes before `b` in dictionary order.
pub open spec fn lex_lt(a: Seq<u8>, b: Seq<u8>) -> bool {
    exists|i: int| #[trigger] parts_at(a, b, i)
}

/// `a` is `b` or comes before it.
pub open spec fn lex_le(a: Seq<u8>, b: Seq<u8>) -> bool {
    a == b || lex_lt(a, b)
}

/// `s` begins with `prefix`.
pub open spec fn starts_with(s: Seq<u8>, prefix: Seq<u8>) -> bool {
    prefix.len() <= s.len() && s.take(prefix.len() as int) == prefix
}

/// Dictionary order is asymmetric.
pub proof fn lemma_lex_asymmetric(a: Seq<u8>, b: Seq<u8>)
    requires
        lex_lt(a, b),
    ensures
        !lex_lt(b, a),
        a != b,
{
    let i = choose|i: int| #[trigger] parts_at(a, b, i);
    if lex_lt(b, a) {
        let j = choose|j: int| #[trigger] parts_at(b, a, j);
        if i < j {
            assert(a[i] == b[i]);
        } else if j < i {
            assert(a[j] == b[j]);
        }
    }
}

/// Dictionary order is transitive.
pub proof fn lemma_lex_transitive(a: Seq<u8>, b: Seq<u8>, c: Seq<u8>)
    requires
        lex_lt(a, b),
        lex_lt(b, c),
    ensures
        lex_lt(a, c),
{
    let i = choose|i: int| #[trigger] parts_at(a, b, i);
    let j = choose|j: int| #[trigger] parts_at(b, c, j);
    if i < j {
        assert(parts_at(a, c, i));
    } else {
        assert(parts_at(a, c, j));
    }
}

/// A common prefix does not change the order.
pub proof fn lemma_lex_prefix(p: Seq<u8>, a: Seq<u8>, b: Seq<u8>)
    ensures
        lex_lt(p + a, p + b) <==> lex_lt(a, b),
{
    if lex_lt(a, b) {
        let i = choose|i: int| #[trigger] parts_at(a, b, i);
        assert(parts_at(p + a, p + b, p.len() + i));
    }
    if lex_lt(p + a, p + b) {
        let i = choose|i: int| #[trigger] parts_at(p + a, p + b, i);
        assert(p.len() <= i) by {
            if i < p.len() {
                assert((p + a)[i] == p[i] && (p + b)[i] == p[i]);
            }
        }
        assert forall|j: int| 0 <= j < i - p.len() implies a[j] == b[j] by {
            assert((p + a)[p.len() + j] == a[j]);
            assert((p + b)[p.len() + j] == b[j]);
        }
        assert(parts_at(a, b, i - p.len()));
    }
}

/// What begins with one prefix is contiguous: nothing else sorts in between.
pub proof fn lemma_prefix_contiguous(prefix: Seq<u8>, x: Seq<u8>, k: Seq<u8>, y: Seq<u8>)
    requires
        starts_with(x, prefix),
        starts_with(y, prefix),
        lex_le(x, k),
        lex_le(k, y),
    ensures
        starts_with(k, prefix),
{
    lemma_prefix_contiguous_from(prefix, x, k, y, 0);
}

proof fn lemma_prefix_contiguous_from(
    prefix: Seq<u8>,
    x: Seq<u8>,
    k: Seq<u8>,
    y: Seq<u8>,
    i: int,
)
    requires
        starts_with(x, prefix),
        starts_with(y, prefix),
        lex_le(x, k),
        lex_le(k, y),
        0 <= i <= k.len(),
        i <= prefix.len(),
        forall|j: int| 0 <= j < i ==> k[j] == prefix[j],
    ensures
        starts_with(k, prefix),
    decreases prefix.len() - i,
{
    assert forall|j: int| 0 <= j < prefix.len() implies x[j] == prefix[j] && y[j] == prefix[j] by {
        assert(x.take(prefix.len() as int)[j] == x[j]);
        assert(y.take(prefix.len() as int)[j] == y[j]);
    }
    if i == prefix.len() {
        assert(k.take(prefix.len() as int) =~= prefix);
    } else if i == k.len() {
        assert(parts_at(k, x, i));
        lemma_lex_asymmetric(k, x);
    } else if k[i] < prefix[i] {
        assert(parts_at(k, x, i));
        lemma_lex_asymmetric(k, x);
    } else if prefix[i] < k[i] {
        assert(parts_at(y, k, i));
        lemma_lex_asymmetric(y, k);
    } else {
        lemma_prefix_contiguous_from(prefix, x, k, y, i + 1);
    }
}

/// The `width` lowest digits of `n` in `base`, most significant first, where the digit
/// zero is the byte `zero`.
pub open spec fn numeral(n: nat, width: nat, base: nat, zero: nat) -> Seq<u8>
    decreases width,
{
    if width == 0 {
        Seq::empty()
    } else {
        numeral(n / base, (width - 1) as nat, base, zero).push((zero + n % base) as u8)
    }
}

/// The number that a string of digits stands for.
pub open spec fn numeral_value(s: Seq<u8>, base: nat, zero: nat) -> int
    decreases s.len(),
{
    if s.len() == 0 {
        0
    } else {
        numeral_value(s.drop_last(), base, zero) * base + (s.last() - zero)
    }
}

/// A numeral has the width it was asked for.
pub proof fn lemma_numeral_len(n: nat, width: nat, base: nat, zero: nat)
    requires
        base > 0,
    ensures
        numeral(n, width, base, zero).len() == width,
    decreases width,
{
    if width > 0 {
        lemma_numeral_len(n / base, (width - 1) as nat, base, zero);
    }
}

proof fn lemma_quotient_fits(n: nat, width: nat, base: nat)
    requires
        width > 0,
        base > 0,
        n < pow(base as int, width),
    ensures
        n / base < pow(base as int, (width - 1) as nat),
{
    let q = pow(base as int, (width - 1) as nat);
    vstd::arithmetic::power::lemma_pow_adds(base as int, 1, (width - 1) as nat);
    vstd::arithmetic::power::lemma_pow1(base as int);
    assert(pow(base as int, width) == base * q);
    assert(n / base < q) by (nonlinear_arith)
        requires
            base > 0,
            n < base * q,
    ;
}

/// Numerals of one width sort by value.
pub proof fn lemma_numeral_order(m: nat, n: nat, width: nat, base: nat, zero: nat)
    requires
        m < n,
        n < pow(base as int, width),
        2 <= base,
        zero + base <= 256,
    ensures
        lex_lt(numeral(m, width, base, zero), numeral(n, width, base, zero)),
    decreases width,
{
    if width == 0 {
        lemma_pow0(base as int);
    } else {
        let w = (width - 1) as nat;
        let a = numeral(m / base, w, base, zero);
        let b = numeral(n / base, w, base, zero);
        lemma_numeral_len(m / base, w, base, zero);
        lemma_numeral_len(n / base, w, base, zero);
        lemma_quotient_fits(n, width, base);
        vstd::arithmetic::div_mod::lemma_fundamental_div_mod(m as int, base as int);
        vstd::arithmetic::div_mod::lemma_fundamental_div_mod(n as int, base as int);
        if m / base < n / base {
            lemma_numeral_order(m / base, n / base, w, base, zero);
            let i = choose|i: int| #[trigger] parts_at(a, b, i);
            assert(parts_at(
                numeral(m, width, base, zero),
                numeral(n, width, base, zero),
                i,
            ));
        } else {
            assert(m / base <= n / base) by {
                vstd::arithmetic::div_mod::lemma_div_is_ordered(m as int, n as int, base as int);
            }
            assert(m % base < n % base);
            assert(n % base < base);
            assert(parts_at(
                numeral(m, width, base, zero),
                numeral(n, width, base, zero),
                w as int,
            ));
        }
    }
}

/// Reading a numeral back gives the number it was made from.
pub proof fn lemma_numeral_round_trip(n: nat, width: nat, base: nat, zero: nat)
    requires
        n < pow(base as int, width),
        2 <= base,
        zero + base <= 256,
    ensures
        numeral_value(numeral(n, width, base, zero), base, zero) == n,
    decreases width,
{
    if width == 0 {
        lemma_pow0(base as int);
    } else {
        let w = (width - 1) as nat;
        lemma_quotient_fits(n, width, base);
        lemma_numeral_round_trip(n / base, w, base, zero);
        let s = numeral(n, width, base, zero);
        assert(s.drop_last() =~= numeral(n / base, w, base, zero));
        vstd::arithmetic::div_mod::lemma_fundamental_div_mod(n as int, base as int);
        assert(n % base < base);
        assert(s.last() == zero + n % base);
        assert((n / base) * base == base * (n / base)) by (nonlinear_arith);
    }
}

/// Every byte string is the numeral of its value in base 256, which is what its length allows.
pub proof fn lemma_bytes_round_trip(s: Seq<u8>)
    ensures
        0 <= numeral_value(s, 256, 0) < pow(256, s.len()),
        numeral(numeral_value(s, 256, 0) as nat, s.len(), 256, 0) == s,
    decreases s.len(),
{
    if s.len() == 0 {
        lemma_pow0(256);
        assert(numeral(0, 0, 256, 0) =~= s);
    } else {
        let head = s.drop_last();
        let v = numeral_value(head, 256, 0);
        lemma_bytes_round_trip(head);
        vstd::arithmetic::power::lemma_pow_adds(256, 1, head.len());
        vstd::arithmetic::power::lemma_pow1(256);
        let n = numeral_value(s, 256, 0);
        assert(n == v * 256 + s.last());
        assert((n as nat) / 256 == v && (n as nat) % 256 == s.last());
        assert(numeral(n as nat, s.len(), 256, 0) =~= s);
    }
}

/// Dictionary order is decided at the first byte that differs; where one string ends first, it
/// comes first.
pub proof fn dictionary_order_goes_byte_by_byte(x: u8, a: Seq<u8>, y: u8, b: Seq<u8>)
    ensures
        !lex_lt(a, Seq::empty()),
        lex_lt(Seq::empty(), b) <==> b.len() > 0,
        lex_lt(seq![x] + a, seq![y] + b) <==> x < y || (x == y && lex_lt(a, b)),
        lex_le(a, b) <==> a == b || lex_lt(a, b),
{
    let s = seq![x] + a;
    let t = seq![y] + b;
    if lex_lt(a, Seq::empty()) {
        let i = choose|i: int| #[trigger] parts_at(a, Seq::empty(), i);
    }
    if b.len() > 0 {
        assert(parts_at(Seq::empty(), b, 0));
    }
    if x < y {
        assert(parts_at(s, t, 0));
    } else if x == y {
        assert(seq![x] =~= seq![y]);
        lemma_lex_prefix(seq![x], a, b);
    } else {
        assert(parts_at(t, s, 0));
        lemma_lex_asymmetric(t, s);
    }
}

/// A string begins with a prefix exactly where it is the prefix and something more.
pub proof fn what_begins_with_a_prefix_goes_on_from_it(s: Seq<u8>, prefix: Seq<u8>)
    ensures
        starts_with(s, prefix) <==> exists|rest: Seq<u8>| s == #[trigger] (prefix + rest),
{
    if starts_with(s, prefix) {
        assert(s =~= prefix + s.skip(prefix.len() as int));
    }
    if exists|rest: Seq<u8>| s == #[trigger] (prefix + rest) {
        let rest = choose|rest: Seq<u8>| s == #[trigger] (prefix + rest);
        assert(s.take(prefix.len() as int) =~= prefix);
    }
}

/// A numeral shows each digit of the number in its place.
pub proof fn a_numeral_shows_each_digit(n: nat, width: nat, base: nat, zero: nat, i: int)
    requires
        0 <= i < width,
        2 <= base,
        zero + base <= 256,
    ensures
        numeral(n, width, base, zero).len() == width,
        numeral(n, width, base, zero)[i] == zero + (n as int / pow(
            base as int,
            (width - 1 - i) as nat,
        )) % (base as int),
    decreases width,
{
    lemma_numeral_len(n, width, base, zero);
    if i == width - 1 {
        lemma_pow0(base as int);
        assert(n % base < base);
    } else {
        let e = (width - 2 - i) as nat;
        lemma_numeral_len(n / base, (width - 1) as nat, base, zero);
        a_numeral_shows_each_digit(n / base, (width - 1) as nat, base, zero, i);
        vstd::arithmetic::power::lemma_pow_positive(base as int, e);
        vstd::arithmetic::power::lemma_pow_adds(base as int, 1, e);
        vstd::arithmetic::power::lemma_pow1(base as int);
        vstd::arithmetic::div_mod::lemma_div_denominator(
            n as int,
            base as int,
            pow(base as int, e),
        );
    }
}

/// A digit more makes a number its base times what it was, and the digit.
pub proof fn a_digit_more_multiplies_by_the_base(s: Seq<u8>, digit: u8, base: nat, zero: nat)
    ensures
        numeral_value(Seq::empty(), base, zero) == 0,
        numeral_value(s.push(digit), base, zero) == numeral_value(s, base, zero) * base + (digit
            - zero),
{
    assert(s.push(digit).drop_last() =~= s);
}

} // verus!
