//! Addresses and hashes: byte strings of a fixed width.

use vstd::prelude::*;

verus! {

/// A 20-byte account address.
#[derive(Clone, Copy, Debug, Eq)]
pub struct Address(pub [u8; 20]);

/// A 32-byte hash.
#[derive(Clone, Copy, Debug, Eq)]
pub struct B256(pub [u8; 32]);

/// The hash of a transaction.
pub type TxHash = B256;

impl View for Address {
    type V = Seq<u8>;

    open spec fn view(&self) -> Seq<u8> {
        self.0@
    }
}

impl View for B256 {
    type V = Seq<u8>;

    open spec fn view(&self) -> Seq<u8> {
        self.0@
    }
}

/// Addresses with the same bytes are the same.
pub broadcast proof fn lemma_address_ext(a: Address, b: Address)
    ensures
        #![trigger a@, b@]
        a@ == b@ ==> a == b,
{
    if a@ == b@ {
        assert(a.0 =~= b.0);
    }
}

/// Hashes with the same bytes are the same.
pub broadcast proof fn lemma_hash_ext(a: B256, b: B256)
    ensures
        #![trigger a@, b@]
        a@ == b@ ==> a == b,
{
    if a@ == b@ {
        assert(a.0 =~= b.0);
    }
}

impl PartialEq for Address {
    fn eq(&self, other: &Self) -> (r: bool) {
        let mut i: usize = 0;
        while i < 20
            invariant
                i <= 20,
                forall|j: int| 0 <= j < i ==> self.0@[j] == other.0@[j],
            decreases 20 - i,
        {
            if self.0[i] != other.0[i] {
                return false;
            }
            i = i + 1;
        }
        assert(self.0@ =~= other.0@);
        proof {
            lemma_address_ext(*self, *other);
        }
        true
    }
}

impl vstd::std_specs::cmp::PartialEqSpecImpl for Address {
    open spec fn obeys_eq_spec() -> bool {
        true
    }

    open spec fn eq_spec(&self, other: &Self) -> bool {
        *self == *other
    }
}

impl PartialEq for B256 {
    fn eq(&self, other: &Self) -> (r: bool) {
        let mut i: usize = 0;
        while i < 32
            invariant
                i <= 32,
                forall|j: int| 0 <= j < i ==> self.0@[j] == other.0@[j],
            decreases 32 - i,
        {
            if self.0[i] != other.0[i] {
                return false;
            }
            i = i + 1;
        }
        assert(self.0@ =~= other.0@);
        proof {
            lemma_hash_ext(*self, *other);
        }
        true
    }
}

impl vstd::std_specs::cmp::PartialEqSpecImpl for B256 {
    open spec fn obeys_eq_spec() -> bool {
        true
    }

    open spec fn eq_spec(&self, other: &Self) -> bool {
        *self == *other
    }
}

impl From<[u8; 20]> for Address {
    fn from(bytes: [u8; 20]) -> (r: Self) {
        Address(bytes)
    }
}

impl vstd::std_specs::convert::FromSpecImpl<[u8; 20]> for Address {
    open spec fn obeys_from_spec() -> bool {
        true
    }

    open spec fn from_spec(bytes: [u8; 20]) -> Self {
        Address(bytes)
    }
}

impl From<[u8; 32]> for B256 {
    fn from(bytes: [u8; 32]) -> (r: Self) {
        B256(bytes)
    }
}

impl vstd::std_specs::convert::FromSpecImpl<[u8; 32]> for B256 {
    open spec fn obeys_from_spec() -> bool {
        true
    }

    open spec fn from_spec(bytes: [u8; 32]) -> Self {
        B256(bytes)
    }
}

impl Address {
    /// The address with these 20 bytes.
    pub fn from_slice(s: &[u8]) -> (r: Self)
        requires
            s@.len() == 20,
        ensures
            r@ == s@,
    {
        let mut bytes: [u8; 20] = [0u8; 20];
        let mut i: usize = 0;
        while i < 20
            invariant
                i <= 20,
                s@.len() == 20,
                forall|j: int| 0 <= j < i ==> bytes@[j] == s@[j],
            decreases 20 - i,
        {
            bytes[i] = s[i];
            i = i + 1;
        }
        assert(bytes@ =~= s@);
        Address(bytes)
    }

    /// The bytes of the address.
    pub fn as_slice(&self) -> (r: &[u8])
        ensures
            r@ == self@,
    {
        self.0.as_slice()
    }

    /// A copy of the bytes of the address.
    pub fn to_vec(&self) -> (r: Vec<u8>)
        ensures
            r@ == self@,
    {
        crate::bytes::copied(self.as_slice())
    }
}

impl B256 {
    /// The hash with these 32 bytes.
    pub fn from_slice(s: &[u8]) -> (r: Self)
        requires
            s@.len() == 32,
        ensures
            r@ == s@,
    {
        let mut bytes: [u8; 32] = [0u8; 32];
        let mut i: usize = 0;
        while i < 32
            invariant
                i <= 32,
                s@.len() == 32,
                forall|j: int| 0 <= j < i ==> bytes@[j] == s@[j],
            decreases 32 - i,
        {
            bytes[i] = s[i];
            i = i + 1;
        }
        assert(bytes@ =~= s@);
        B256(bytes)
    }

    /// The bytes of the hash.
    pub fn as_slice(&self) -> (r: &[u8])
        ensures
            r@ == self@,
    {
        self.0.as_slice()
    }
}

// ---- the bytes are what counts

/// An address has the bytes it is made from, from an array or from a slice: two are the same
/// address exactly where they are made from the same bytes, and the bytes that are read off one
/// are those it was made from.
pub proof fn an_address_has_the_bytes_it_is_made_from(
    bytes: [u8; 20],
    s: &[u8],
    a: Address,
    b: Address,
    read: &[u8],
    copy: Vec<u8>,
)
    requires
        call_ensures(<Address as From<[u8; 20]>>::from, (bytes,), a),
        call_ensures(Address::from_slice, (s,), b),
        call_ensures(Address::as_slice, (&a,), read),
        call_ensures(Address::to_vec, (&a,), copy),
    ensures
        a@ == bytes@,
        a.0 == bytes,
        b@ == s@,
        b.0@ == s@,
        a == b <==> bytes@ == s@,
        read@ == bytes@,
        copy@ == bytes@,
{
    lemma_address_ext(a, b);
    assert(a.0 =~= bytes);
}

/// No two arrays make the same address.
pub proof fn addresses_of_different_bytes_differ(x: [u8; 20], y: [u8; 20], a: Address, b: Address)
    requires
        call_ensures(<Address as From<[u8; 20]>>::from, (x,), a),
        call_ensures(<Address as From<[u8; 20]>>::from, (y,), b),
    ensures
        a == b <==> x@ == y@,
        a@ == b@ <==> x@ == y@,
{
    lemma_address_ext(a, b);
}

/// Addresses compare equal exactly where all their bytes are.
pub proof fn addresses_compare_by_their_bytes(a: &Address, b: &Address, r: bool)
    requires
        call_ensures(<Address as PartialEq>::eq, (a, b), r),
    ensures
        r <==> forall|i: int| 0 <= i < 20 ==> #[trigger] a.0@[i] == b.0@[i],
{
    if forall|i: int| 0 <= i < 20 ==> #[trigger] a.0@[i] == b.0@[i] {
        assert(a.0@ =~= b.0@);
        lemma_address_ext(*a, *b);
    }
}

/// A hash has the bytes it is made from, from an array or from a slice: two are the same hash
/// exactly where they are made from the same bytes, and the bytes that are read off one are those
/// it was made from.
pub proof fn a_hash_has_the_bytes_it_is_made_from(
    bytes: [u8; 32],
    s: &[u8],
    a: B256,
    b: B256,
    read: &[u8],
)
    requires
        call_ensures(<B256 as From<[u8; 32]>>::from, (bytes,), a),
        call_ensures(B256::from_slice, (s,), b),
        call_ensures(B256::as_slice, (&a,), read),
    ensures
        a@ == bytes@,
        a.0 == bytes,
        b@ == s@,
        b.0@ == s@,
        a == b <==> bytes@ == s@,
        read@ == bytes@,
{
    lemma_hash_ext(a, b);
    assert(a.0 =~= bytes);
}

/// No two arrays make the same hash.
pub proof fn hashes_of_different_bytes_differ(x: [u8; 32], y: [u8; 32], a: B256, b: B256)
    requires
        call_ensures(<B256 as From<[u8; 32]>>::from, (x,), a),
        call_ensures(<B256 as From<[u8; 32]>>::from, (y,), b),
    ensures
        a == b <==> x@ == y@,
        a@ == b@ <==> x@ == y@,
{
    lemma_hash_ext(a, b);
}

/// Hashes compare equal exactly where all their bytes are.
pub proof fn hashes_compare_by_their_bytes(a: &B256, b: &B256, r: bool)
    requires
        call_ensures(<B256 as PartialEq>::eq, (a, b), r),
    ensures
        r <==> forall|i: int| 0 <= i < 32 ==> #[trigger] a.0@[i] == b.0@[i],
{
    if forall|i: int| 0 <= i < 32 ==> #[trigger] a.0@[i] == b.0@[i] {
        assert(a.0@ =~= b.0@);
        lemma_hash_ext(*a, *b);
    }
}

} // verus!
