//! Contract addresses, fixed 20-byte identifiers, and the byte-sequence
//! comparisons and copies that they and the store rely on.
use vstd::prelude::*;

verus! {

/// The length of an address in bytes.
pub const ADDRESS_LEN: usize = 20;

/// A fixed-length identifier that names a deployed contract and its storage.
pub struct Address {
    bytes: Vec<u8>,
}

impl View for Address {
    type V = Seq<u8>;

    closed spec fn view(&self) -> Seq<u8> {
        self.bytes@
    }
}

/// `a` and `b` hold the same bytes.
pub fn bytes_eq(a: &[u8], b: &[u8]) -> (r: bool)
    ensures
        r == (a@ == b@),
{
    if a.len() != b.len() {
        return false;
    }
    let mut i: usize = 0;
    while i < a.len()
        invariant
            a@.len() == b@.len(),
            i <= a@.len(),
            a@.take(i as int) == b@.take(i as int),
        decreases a@.len() - i,
    {
        if a[i] != b[i] {
            assert(a@[i as int] != b@[i as int]);
            return false;
        }
        i = i + 1;
        assert(a@.take(i as int) =~= a@.take((i - 1) as int).push(a@[i - 1]));
        assert(b@.take(i as int) =~= b@.take((i - 1) as int).push(b@[i - 1]));
    }
    assert(a@ =~= a@.take(i as int));
    assert(b@ =~= b@.take(i as int));
    true
}

/// A fresh vector holding the bytes of `b`.
pub fn copy_bytes(b: &[u8]) -> (r: Vec<u8>)
    ensures
        r@ == b@,
{
    let mut out: Vec<u8> = Vec::new();
    let mut i: usize = 0;
    while i < b.len()
        invariant
            i <= b@.len(),
            out@ == b@.take(i as int),
        decreases b@.len() - i,
    {
        out.push(b[i]);
        i = i + 1;
        assert(out@ =~= b@.take(i as int));
    }
    assert(out@ =~= b@);
    out
}

impl Address {
    #[verifier::type_invariant]
    pub closed spec fn inv(&self) -> bool {
        self.bytes@.len() == ADDRESS_LEN
    }

    /// The address of all zero bytes.
    pub fn zero() -> (r: Address)
        ensures
            r@ == Seq::new(ADDRESS_LEN as nat, |i: int| 0u8),
    {
        let mut bytes: Vec<u8> = Vec::new();
        let mut i: usize = 0;
        while i < ADDRESS_LEN
            invariant
                i <= ADDRESS_LEN,
                bytes@ == Seq::new(i as nat, |j: int| 0u8),
            decreases ADDRESS_LEN - i,
        {
            bytes.push(0);
            i = i + 1;
            assert(bytes@ =~= Seq::new(i as nat, |j: int| 0u8));
        }
        Address { bytes }
    }

    /// The address made of `b`, if `b` is 20 bytes long.
    pub fn from_slice(b: &[u8]) -> (r: Option<Address>)
        ensures
            b@.len() == ADDRESS_LEN ==> r is Some && r->Some_0@ == b@,
            b@.len() != ADDRESS_LEN ==> r is None,
    {
        if b.len() != ADDRESS_LEN {
            return None;
        }
        Some(Address { bytes: copy_bytes(b) })
    }

    pub fn as_slice(&self) -> (r: &[u8])
        ensures
            r@ == self@,
            r@.len() == ADDRESS_LEN,
    {
        proof {
            use_type_invariant(self);
        }
        self.bytes.as_slice()
    }

    /// A second address with the same bytes.
    pub fn duplicate(&self) -> (r: Address)
        ensures
            r@ == self@,
    {
        proof {
            use_type_invariant(self);
        }
        match Address::from_slice(self.bytes.as_slice()) {
            Some(a) => a,
            None => Address::zero(),
        }
    }

    pub fn same_as(&self, other: &Address) -> (r: bool)
        ensures
            r == (self@ == other@),
    {
        bytes_eq(self.bytes.as_slice(), other.bytes.as_slice())
    }
}

} // verus!
