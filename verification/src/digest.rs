//! Digests: the fixed-width fingerprints by which objects are identified.

use vstd::prelude::*;
use sha3::Digest as Sha3Hasher;

verus! {

/// The width of a digest in bytes.
pub const DIGEST_LEN: usize = 32;

/// The SHA3-256 hash of a byte string, as the `sha3` crate computes it.
pub uninterp spec fn sha3_256(data: Seq<u8>) -> Seq<u8>;

/// Calls `sha3::Sha3_256::digest` on `data`.
///
/// Trusted: the result is the SHA3-256 hash of `data`, a pure function of the
/// bytes, and it is 32 bytes wide.
#[verifier::external_body]
fn sha3_256_bytes(data: &[u8]) -> (out: Vec<u8>)
    ensures
        out@ == sha3_256(data@),
        out@.len() == DIGEST_LEN,
{
    sha3::Sha3_256::digest(data).to_vec()
}

/// The digest of a byte string: its SHA3-256 hash, which is thirty-two bytes
/// wide. Should a hash ever have another width, the digest is thirty-two
/// zero bytes, so that a digest has its width whatever the hash is.
pub open spec fn digest_of(data: Seq<u8>) -> Seq<u8> {
    let hash = sha3_256(data);
    if hash.len() == DIGEST_LEN {
        hash
    } else {
        Seq::new(DIGEST_LEN as nat, |i: int| 0u8)
    }
}

/// The lower-case hexadecimal digit of a value below sixteen.
pub open spec fn hex_digit(nibble: u8) -> char {
    if nibble < 10 {
        (('0' as u8) + nibble) as char
    } else {
        (('a' as u8) + (nibble - 10) as u8) as char
    }
}

/// The lower-case hexadecimal text of a byte string, two digits per byte,
/// the high half of each byte first.
pub open spec fn hex_lower(data: Seq<u8>) -> Seq<char> {
    Seq::new(2 * data.len(), |i: int| if i % 2 == 0 {
        hex_digit(data[i / 2] / 16)
    } else {
        hex_digit(data[i / 2] % 16)
    })
}

/// Calls `hex::encode` on `data`.
///
/// Trusted: the result holds two lower-case hexadecimal digits for each byte,
/// in order, the high half first.
#[verifier::external_body]
fn hex_encode(data: &[u8]) -> (text: String)
    ensures
        text@ == hex_lower(data@),
{
    hex::encode(data)
}

/// The digest of an object: thirty-two bytes.
#[derive(Debug)]
pub struct Digest {
    bytes: Vec<u8>,
}

impl View for Digest {
    type V = Seq<u8>;

    closed spec fn view(&self) -> Seq<u8> {
        self.bytes@
    }
}

impl Digest {
    /// Every digest is exactly [`DIGEST_LEN`] bytes wide.
    #[verifier::type_invariant]
    pub open spec fn inv(&self) -> bool {
        self@.len() == DIGEST_LEN
    }

    /// The digest of `data`.
    pub fn of(data: &[u8]) -> (d: Digest)
        ensures
            d@ == digest_of(data@),
    {
        Digest { bytes: sha3_256_bytes(data) }
    }

    /// Takes thirty-two bytes as a digest; any other length is refused.
    pub fn from_bytes(bytes: Vec<u8>) -> (d: Option<Digest>)
        ensures
            d is Some <==> bytes@.len() == DIGEST_LEN,
            d matches Some(x) ==> x@ == bytes@,
    {
        if bytes.len() == DIGEST_LEN {
            Some(Digest { bytes })
        } else {
            None
        }
    }

    /// The bytes of the digest.
    pub fn as_bytes(&self) -> (b: &[u8])
        ensures
            b@ == self@,
            b@.len() == DIGEST_LEN,
    {
        proof {
            use_type_invariant(self);
        }
        self.bytes.as_slice()
    }

    /// A copy of this digest.
    pub fn duplicate(&self) -> (d: Digest)
        ensures
            d@ == self@,
    {
        proof {
            use_type_invariant(self);
        }
        Digest { bytes: self.bytes.clone() }
    }

    /// Whether two digests hold the same bytes.
    pub fn same(&self, other: &Digest) -> (b: bool)
        ensures
            b == (self@ == other@),
    {
        proof {
            use_type_invariant(self);
            use_type_invariant(other);
        }
        let mut i: usize = 0;
        while i < DIGEST_LEN
            invariant
                i <= DIGEST_LEN,
                self.bytes@.len() == DIGEST_LEN,
                other.bytes@.len() == DIGEST_LEN,
                forall|j: int| 0 <= j < i ==> self.bytes@[j] == other.bytes@[j],
            decreases DIGEST_LEN - i,
        {
            if self.bytes[i] != other.bytes[i] {
                return false;
            }
            i = i + 1;
        }
        assert(self.bytes@ =~= other.bytes@);
        true
    }

    /// The digest as lower-case hexadecimal text.
    pub fn to_hex(&self) -> (text: String)
        ensures
            text@ == hex_lower(self@),
    {
        hex_encode(self.bytes.as_slice())
    }
}

} // verus!
