//! Big-endian integers and slices of byte strings.

use vstd::arithmetic::power::pow;
use vstd::prelude::*;

use crate::lex::{a_digit_more_multiplies_by_the_base, a_numeral_shows_each_digit,
    lemma_bytes_round_trip, lemma_numeral_len, lemma_numeral_order,
    lemma_numeral_round_trip, lex_lt, numeral, numeral_value, starts_with,
    what_begins_with_a_prefix_goes_on_from_it};

verus! {

/// `n` in `width` bytes, most significant first.
pub open spec fn be(n: nat, width: nat) -> Seq<u8> {
    numeral(n, width, 256, 0)
}

/// The integer that a big-endian byte string stands for.
pub open spec fn be_value(s: Seq<u8>) -> int {
    numeral_value(s, 256, 0)
}

proof fn lemma_widths()
    ensures
        pow(256, 4) == 0x1_0000_0000,
        pow(256, 8) == 0x1_0000_0000_0000_0000,
{
    reveal(pow);
    reveal_with_fuel(pow, 9);
    assert(pow(256, 1) == 256);
    assert(pow(256, 2) == 0x1_0000);
    assert(pow(256, 3) == 0x100_0000);
    assert(pow(256, 4) == 0x1_0000_0000);
    assert(pow(256, 5) == 0x100_0000_0000);
    assert(pow(256, 6) == 0x1_0000_0000_0000);
    assert(pow(256, 7) == 0x100_0000_0000_0000);
    assert(pow(256, 8) == 0x1_0000_0000_0000_0000);
}

/// Eight bytes hold any `u64`, and sort as it does.
pub proof fn lemma_be_u64(m: u64, n: u64)
    ensures
        be(n as nat, 8).len() == 8,
        be_value(be(n as nat, 8)) == n,
        m < n ==> lex_lt(be(m as nat, 8), be(n as nat, 8)),
{
    lemma_widths();
    lemma_numeral_len(n as nat, 8, 256, 0);
    lemma_numeral_round_trip(n as nat, 8, 256, 0);
    if m < n {
        lemma_numeral_order(m as nat, n as nat, 8, 256, 0);
    }
}

/// Four bytes hold any `u32`, and sort as it does.
pub proof fn lemma_be_u32(m: u32, n: u32)
    ensures
        be(n as nat, 4).len() == 4,
        be_value(be(n as nat, 4)) == n,
        m < n ==> lex_lt(be(m as nat, 4), be(n as nat, 4)),
{
    lemma_widths();
    lemma_numeral_len(n as nat, 4, 256, 0);
    lemma_numeral_round_trip(n as nat, 4, 256, 0);
    if m < n {
        lemma_numeral_order(m as nat, n as nat, 4, 256, 0);
    }
}

/// Eight bytes stand for a `u64`, and are its encoding.
pub proof fn lemma_be_of_8(s: Seq<u8>)
    requires
        s.len() == 8,
    ensures
        0 <= be_value(s) <= u64::MAX,
        be(be_value(s) as nat, 8) == s,
{
    lemma_widths();
    lemma_bytes_round_trip(s);
}

/// Four bytes stand for a `u32`, and are its encoding.
pub proof fn lemma_be_of_4(s: Seq<u8>)
    requires
        s.len() == 4,
    ensures
        0 <= be_value(s) <= u32::MAX,
        be(be_value(s) as nat, 4) == s,
{
    lemma_widths();
    lemma_bytes_round_trip(s);
}

/// Append the `width` lowest bytes of `n`, most significant first.
pub fn push_be(out: &mut Vec<u8>, n: u64, width: usize)
    ensures
        final(out)@ == old(out)@ + be(n as nat, width as nat),
    decreases width,
{
    if width > 0 {
        push_be(out, n / 256, width - 1);
        let digit: u8 = (n % 256) as u8;
        out.push(digit);
    }
}

/// The integer that up to eight big-endian bytes stand for.
pub fn read_be(s: &[u8]) -> (n: u64)
    requires
        s@.len() <= 8,
    ensures
        n == be_value(s@),
{
    let mut n: u64 = 0;
    let mut i: usize = 0;
    while i < s.len()
        invariant
            i <= s@.len() <= 8,
            n == be_value(s@.take(i as int)),
        decreases s@.len() - i,
    {
        proof {
            let head = s@.take(i as int);
            let more = s@.take(i + 1);
            assert(more.drop_last() =~= head);
            lemma_bytes_round_trip(more);
            lemma_fits(i as nat + 1);
            assert(be_value(more) == be_value(head) * 256 + s@[i as int]);
        }
        n = n * 256 + s[i] as u64;
        i = i + 1;
    }
    assert(s@.take(s@.len() as int) =~= s@);
    n
}

proof fn lemma_fits(width: nat)
    requires
        width <= 8,
    ensures
        pow(256, width) <= 0x1_0000_0000_0000_0000,
{
    lemma_widths();
    vstd::arithmetic::power::lemma_pow_increases(256, width, 8);
}

/// Whether `s` begins with `prefix`.
pub fn begins_with(s: &[u8], prefix: &[u8]) -> (r: bool)
    ensures
        r == starts_with(s@, prefix@),
{
    if s.len() < prefix.len() {
        return false;
    }
    let mut i: usize = 0;
    while i < prefix.len()
        invariant
            i <= prefix@.len() <= s@.len(),
            forall|j: int| 0 <= j < i ==> s@[j] == prefix@[j],
        decreases prefix@.len() - i,
    {
        if s[i] != prefix[i] {
            proof {
                assert(s@.take(prefix@.len() as int)[i as int] == s@[i as int]);
            }
            return false;
        }
        i = i + 1;
    }
    assert(s@.take(prefix@.len() as int) =~= prefix@);
    true
}

/// A copy of a byte string.
pub fn copied(s: &[u8]) -> (r: Vec<u8>)
    ensures
        r@ == s@,
{
    let mut out: Vec<u8> = Vec::with_capacity(s.len());
    append(&mut out, s);
    assert(out@ =~= s@);
    out
}

/// Append `s` to `out`.
pub fn append(out: &mut Vec<u8>, s: &[u8])
    ensures
        final(out)@ == old(out)@ + s@,
{
    out.extend_from_slice(s);
    assert(out@ =~= old(out)@ + s@);
}

/// A number is written most significant byte first: each byte is what the number comes to in its
/// place.
pub proof fn numbers_are_written_big_endian(n: nat, width: nat, i: int)
    requires
        0 <= i < width,
    ensures
        be(n, width).len() == width,
        be(n, width)[i] == (n as int / pow(256, (width - 1 - i) as nat)) % 256,
{
    a_numeral_shows_each_digit(n, width, 256, 0, i);
}

/// And read likewise: a byte more makes it two hundred and fifty-six times what it was, and the
/// byte.
pub proof fn numbers_are_read_big_endian(s: Seq<u8>, byte: u8)
    ensures
        be_value(Seq::empty()) == 0,
        be_value(s.push(byte)) == be_value(s) * 256 + byte,
{
    a_digit_more_multiplies_by_the_base(s, byte, 256, 0);
}

/// What is appended as a number, and what is read as one.
pub proof fn numbers_are_appended_and_read(
    out: &mut Vec<u8>,
    n: u64,
    width: usize,
    i: int,
    s: &[u8],
    read: u64,
)
    requires
        call_ensures(push_be, (out, n, width), ()),
        call_ensures(read_be, (s,), read),
        0 <= i < width,
    ensures
        final(out)@.len() == old(out)@.len() + width,
        final(out)@.take(old(out)@.len() as int) == old(out)@,
        final(out)@[old(out)@.len() + i] == (n as int / pow(256, (width - 1 - i) as nat)) % 256,
        read == be_value(s@),
        final(out)@ == old(out)@ + s@ && s@.len() == 8 && width == 8 ==> read == n,
{
    numbers_are_written_big_endian(n as nat, width as nat, i);
    assert(final(out)@.take(out@.len() as int) =~= out@);
    if final(out)@ == out@ + s@ && s@.len() == 8 && width == 8 {
        assert(final(out)@.skip(out@.len() as int) =~= s@);
        assert(final(out)@.skip(out@.len() as int) =~= be(n as nat, 8));
        lemma_be_u64(0, n);
    }
}

/// Strings of bytes are compared, copied and appended whole.
pub proof fn byte_strings_are_handled_whole(
    s: &[u8],
    prefix: &[u8],
    begins: bool,
    copy: Vec<u8>,
    out: &mut Vec<u8>,
)
    requires
        call_ensures(begins_with, (s, prefix), begins),
        call_ensures(copied, (s,), copy),
        call_ensures(append, (out, s), ()),
    ensures
        begins <==> exists|rest: Seq<u8>| s@ == #[trigger] (prefix@ + rest),
        copy@ == s@,
        final(out)@ == old(out)@ + s@,
{
    what_begins_with_a_prefix_goes_on_from_it(s@, prefix@);
}

} // verus!
