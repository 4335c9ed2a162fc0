//! The content hash: a 32-byte digest that names blocks and transactions.

use vstd::prelude::*;
use crate::serializer::codec::Serializer;
use crate::serializer::error::ReaderError;
use crate::serializer::hex;
use crate::serializer::reader::{take_bytes, Reader};
use crate::serializer::writer::Writer;

verus! {

/// Number of bytes in a hash.
pub const HASH_SIZE: usize = 32;

/// A 32-byte digest.
#[derive(Clone, Copy, Debug, PartialEq, Eq, Hash)]
pub struct Hash {
    bytes: [u8; HASH_SIZE],
}

impl View for Hash {
    type V = Seq<u8>;

    closed spec fn view(&self) -> Seq<u8> {
        self.bytes@
    }
}

/// The digest of a byte sequence: the value that Keccak-256 gives for it.
pub uninterp spec fn digest(bytes: Seq<u8>) -> Seq<u8>;

/// Calls `sha3::Keccak256::digest`. Trusted: the hash returned holds the
/// Keccak-256 digest of `value`, which is a function of the bytes alone.
#[verifier::external_body]
pub(crate) fn hash(value: &[u8]) -> (r: Hash)
    ensures
        r@ == digest(value@),
{
    let out = <sha3::Keccak256 as sha3::Digest>::digest(value);
    Hash { bytes: out.into() }
}

impl Hash {
    /// A hash holds exactly `HASH_SIZE` bytes.
    pub proof fn lemma_len(self)
        ensures
            self@.len() == HASH_SIZE,
    {
    }

    /// Two hashes with the same bytes are the same hash.
    pub proof fn lemma_ext_equal(self, other: Hash)
        requires
            self@ == other@,
        ensures
            self == other,
    {
        assert(self.bytes =~= other.bytes);
    }

    /// The hash that holds `bytes`.
    pub fn new(bytes: [u8; HASH_SIZE]) -> (r: Hash)
        ensures
            r@ == bytes@,
    {
        Hash { bytes }
    }

    /// The hash whose bytes are all zero.
    pub fn zero() -> (r: Hash)
        ensures
            r@ == Seq::new(HASH_SIZE as nat, |i: int| 0u8),
    {
        let r = Hash { bytes: [0u8; HASH_SIZE] };
        assert(r@ =~= Seq::new(HASH_SIZE as nat, |i: int| 0u8));
        r
    }

    /// The bytes, borrowed.
    pub fn as_bytes(&self) -> (r: &[u8; HASH_SIZE])
        ensures
            r@ == self@,
    {
        &self.bytes
    }

    /// The bytes, by value.
    pub fn to_bytes(self) -> (r: [u8; HASH_SIZE])
        ensures
            r@ == self@,
    {
        self.bytes
    }

    /// The hash as 64 lower-case hexadecimal digits.
    pub fn to_hex(&self) -> (r: String)
        ensures
            r@ == hex::hex_text(self@),
    {
        hex::encode(self.bytes.as_slice())
    }

    /// Whether two hashes hold the same bytes.
    pub fn same(&self, other: &Hash) -> (r: bool)
        ensures
            r == (self@ == other@),
            r == (*self == *other),
    {
        let mut i: usize = 0;
        while i < HASH_SIZE
            invariant
                i <= HASH_SIZE,
                forall|j: int| 0 <= j < i ==> self.bytes@[j] == other.bytes@[j],
            decreases HASH_SIZE - i,
        {
            if self.bytes[i] != other.bytes[i] {
                return false;
            }
            i += 1;
        }
        assert(self.bytes =~= other.bytes);
        true
    }
}

/// A hash is encoded as its 32 bytes.
impl Serializer for Hash {
    type Model = Seq<u8>;

    open spec fn model(&self) -> Seq<u8> {
        self@
    }

    open spec fn valid(m: Seq<u8>) -> bool {
        m.len() == HASH_SIZE
    }

    open spec fn encoding(m: Seq<u8>) -> Seq<u8> {
        m
    }

    open spec fn decoding(input: Seq<u8>) -> Result<(Seq<u8>, Seq<u8>), ReaderError> {
        take_bytes(input, HASH_SIZE as nat)
    }

    fn write(&self, writer: &mut Writer) {
        writer.write_hash(self);
    }

    fn read(reader: &mut Reader<'_>) -> (r: Result<Self, ReaderError>) {
        reader.read_hash()
    }

    proof fn lemma_round_trip(m: Seq<u8>, rest: Seq<u8>) {
        assert((m + rest).take(HASH_SIZE as int) =~= m);
        assert((m + rest).skip(HASH_SIZE as int) =~= rest);
    }

    proof fn lemma_decoding_sound(input: Seq<u8>) {
        if let Ok((head, rest)) = take_bytes(input, HASH_SIZE as nat) {
            assert(input =~= head + rest);
        }
    }
}

} // verus!
