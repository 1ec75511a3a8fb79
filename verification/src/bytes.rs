//! Fixed-size byte strings, read from slices, vectors and hexadecimal text.
use vstd::prelude::*;
use crate::text::{decimal, owned, push_decimal, push_str};

verus! {

/// A hexadecimal digit.
pub open spec fn is_hex_digit(c: char) -> bool {
    ('0' <= c <= '9') || ('a' <= c <= 'f') || ('A' <= c <= 'F')
}

/// The value of a hexadecimal digit.
pub open spec fn hex_digit_value(c: char) -> int {
    if '0' <= c <= '9' {
        c as int - '0' as int
    } else if 'a' <= c <= 'f' {
        c as int - 'a' as int + 10
    } else {
        c as int - 'A' as int + 10
    }
}

/// Text made of pairs of hexadecimal digits.
pub open spec fn hex_ok(s: Seq<char>) -> bool {
    s.len() % 2 == 0 && forall|i: int| 0 <= i < s.len() ==> is_hex_digit(#[trigger] s[i])
}

/// The bytes that pairs of hexadecimal digits stand for, high digit first.
pub open spec fn hex_bytes(s: Seq<char>) -> Seq<u8> {
    Seq::new((s.len() / 2) as nat, |i: int| (16 * hex_digit_value(s[2 * i]) + hex_digit_value(s[2 * i + 1])) as u8)
}

/// The `Debug` text of the error with which `hex::decode` refuses `s`.
pub uninterp spec fn hex_error_text(s: Seq<char>) -> Seq<char>;

/// Decodes hexadecimal text (`hex::decode`): pairs of digits of either case,
/// as its source reads them; the error is its `Debug` text.
#[verifier::external_body]
pub(crate) fn hex_decode(s: &str) -> (r: Result<Vec<u8>, String>)
    ensures
        (r is Ok) == hex_ok(s@),
        r matches Ok(v) ==> v@ == hex_bytes(s@),
        r matches Err(e) ==> e@ == hex_error_text(s@),
{
    hex::decode(s).map_err(|e| format!("{:?}", e))
}

/// An array holding the bytes of a slice of the same length
/// (`<[u8; N] as TryFrom<&[u8]>>::try_from`).
#[verifier::external_body]
fn array_from_slice<const N: usize>(s: &[u8]) -> (r: Option<[u8; N]>)
    ensures
        r is Some <==> s@.len() == N,
        r matches Some(a) ==> a@ == s@,
{
    <[u8; N]>::try_from(s).ok()
}

/// The message for a slice of the wrong length.
fn length_error(expected: u64, got: u64) -> (r: String)
    ensures
        r@ == "expected "@ + decimal(expected as nat) + " bytes, got "@ + decimal(got as nat),
{
    let mut e = owned("expected ");
    push_decimal(&mut e, expected);
    push_str(&mut e, " bytes, got ");
    push_decimal(&mut e, got);
    e
}

/// Exactly 32 bytes.
#[derive(Clone, Copy, Debug, PartialEq, Eq)]
pub struct Bytes32(pub [u8; 32]);

impl Bytes32 {
    /// The bytes as a vector.
    pub fn to_vec(&self) -> (r: Vec<u8>)
        ensures
            r@ == self.0@,
    {
        let mut v: Vec<u8> = Vec::new();
        for i in 0..32
            invariant
                v@ == self.0@.take(i as int),
        {
            v.push(self.0[i]);
            assert(self.0@.take(i + 1) =~= self.0@.take(i as int).push(self.0@[i as int]));
        }
        assert(self.0@.take(32) =~= self.0@);
        v
    }

    /// The 32 bytes of `value`; an error names any other length.
    pub fn try_from_slice(value: &[u8]) -> (r: Result<Bytes32, String>)
        ensures
            value@.len() == 32 ==> (r matches Ok(b) && b.0@ == value@),
            value@.len() != 32 ==> (r matches Err(e) && e@ == "expected "@ + decimal(32) + " bytes, got "@
                + decimal(value@.len())),
    {
        match array_from_slice::<32>(value) {
            Some(a) => Ok(Bytes32(a)),
            None => Err(length_error(32, value.len() as u64)),
        }
    }

    /// The 32 bytes of `value`; an error names any other length.
    pub fn try_from_vec(value: Vec<u8>) -> (r: Result<Bytes32, String>)
        ensures
            value@.len() == 32 ==> (r matches Ok(b) && b.0@ == value@),
            value@.len() != 32 ==> (r matches Err(e) && e@ == "expected "@ + decimal(32) + " bytes, got "@
                + decimal(value@.len())),
    {
        Self::try_from_slice(value.as_slice())
    }

    /// The 32 bytes written as 64 hexadecimal digits.
    pub fn try_from_hex(value: &str) -> (r: Result<Bytes32, String>)
        ensures
            !hex_ok(value@) ==> (r matches Err(e) && e@ == "failed to decode hex: "@ + value@),
            hex_ok(value@) && hex_bytes(value@).len() == 32 ==> (r matches Ok(b) && b.0@ == hex_bytes(value@)),
            hex_ok(value@) && hex_bytes(value@).len() != 32 ==> (r matches Err(e) && e@ == "expected "@ + decimal(32)
                + " bytes, got "@ + decimal(hex_bytes(value@).len())),
    {
        match hex_decode(value) {
            Err(_) => {
                let mut e = owned("failed to decode hex: ");
                push_str(&mut e, value);
                Err(e)
            },
            Ok(data) => Self::try_from_slice(data.as_slice()),
        }
    }
}

/// Exactly `N` bytes.
#[derive(Clone, Copy, Debug, PartialEq, Eq)]
pub struct ByteN<const N: usize>(pub [u8; N]);

impl<const N: usize> ByteN<N> {
    /// The bytes of an array.
    pub fn from(val: [u8; N]) -> (r: ByteN<N>)
        ensures
            r.0 == val,
    {
        ByteN(val)
    }

    /// The `N` bytes of `value`; an error names any other length.
    pub fn try_from(value: &[u8]) -> (r: Result<ByteN<N>, String>)
        ensures
            value@.len() == N ==> (r matches Ok(b) && b.0@ == value@),
            value@.len() != N ==> (r matches Err(e) && e@ == "expected "@ + decimal(N as nat) + " bytes, got "@
                + decimal(value@.len())),
    {
        match array_from_slice::<N>(value) {
            Some(a) => Ok(ByteN(a)),
            None => Err(length_error(N as u64, value.len() as u64)),
        }
    }

    /// The `N` bytes written as `2 * N` hexadecimal digits.
    pub fn from_hex(val: &str) -> (r: Result<ByteN<N>, String>)
        ensures
            !hex_ok(val@) ==> (r matches Err(e) && e@ == "failed to decode hex: "@ + val@),
            hex_ok(val@) && hex_bytes(val@).len() == N ==> (r matches Ok(b) && b.0@ == hex_bytes(val@)),
            hex_ok(val@) && hex_bytes(val@).len() != N ==> (r matches Err(e) && e@ == "expected "@ + decimal(
                N as nat,
            ) + " bytes, got "@ + decimal(hex_bytes(val@).len())),
    {
        match hex_decode(val) {
            Err(_) => {
                let mut e = owned("failed to decode hex: ");
                push_str(&mut e, val);
                Err(e)
            },
            Ok(data) => Self::try_from(data.as_slice()),
        }
    }
}

} // verus!
