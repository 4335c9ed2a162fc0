//! Ed25519 keys and signatures, held as their bytes.

use vstd::prelude::*;
use crate::crypto::hash;
use crate::serializer::codec::Serializer;
use crate::serializer::error::ReaderError;
use crate::serializer::hex;
use crate::serializer::reader::{take_bytes, Reader};
use crate::serializer::writer::Writer;

verus! {

/// Number of bytes in a public or a private key.
pub const KEY_LENGTH: usize = 32;

/// Number of bytes in a signature.
pub const SIGNATURE_LENGTH: usize = 64;

/// Whether 32 bytes are the compressed form of a point of the curve.
pub uninterp spec fn point_decompresses(bytes: Seq<u8>) -> bool;

/// The public key that belongs to a private key.
pub uninterp spec fn public_key_of(secret: Seq<u8>) -> Seq<u8>;

/// The signature that a private key gives for a message under a public key.
pub uninterp spec fn signature_of(secret: Seq<u8>, message: Seq<u8>, public: Seq<u8>) -> Seq<u8>;

/// Whether a signature holds for a message under a public key.
pub uninterp spec fn signature_verifies(
    public: Seq<u8>,
    message: Seq<u8>,
    signature: Seq<u8>,
) -> bool;

/// Whether the scalar half of a signature leaves its three highest bits clear.
/// This is the test that `ed25519::Signature::from_bytes` lays on 64 bytes.
pub open spec fn scalar_in_range(signature: Seq<u8>) -> bool {
    signature[SIGNATURE_LENGTH - 1] & 0b1110_0000 == 0
}

/// Calls `ed25519_dalek::PublicKey::from_bytes`. Trusted: whether it accepts
/// 32 bytes depends on the bytes alone.
#[verifier::external_body]
fn is_curve_point(bytes: &[u8; KEY_LENGTH]) -> (r: bool)
    ensures
        r == point_decompresses(bytes@),
{
    ed25519_dalek::PublicKey::from_bytes(bytes).is_ok()
}

/// Calls the conversion of `ed25519_dalek::SecretKey` into
/// `ed25519_dalek::PublicKey`. Trusted: the key derived depends on the private
/// key alone, and, being the compressed form of a point, is accepted by
/// `ed25519_dalek::PublicKey::from_bytes`.
#[verifier::external_body]
fn derive_public(secret: &[u8; KEY_LENGTH]) -> (r: [u8; KEY_LENGTH])
    ensures
        r@ == public_key_of(secret@),
        point_decompresses(r@),
{
    let secret_key = ed25519_dalek::SecretKey::from_bytes(secret).unwrap();
    let public_key: ed25519_dalek::PublicKey = (&secret_key).into();
    public_key.to_bytes()
}

/// Calls `ed25519_dalek::ExpandedSecretKey::sign`. Trusted: the signature
/// depends on the three arguments alone, and, since the call hands it out
/// only after `ed25519::Signature::from_bytes` has accepted it, the three
/// highest bits of its scalar half are clear.
#[verifier::external_body]
fn sign_detached(secret: &[u8; KEY_LENGTH], message: &[u8], public: &[u8; KEY_LENGTH]) -> (r:
    [u8; SIGNATURE_LENGTH])
    requires
        point_decompresses(public@),
    ensures
        r@ == signature_of(secret@, message@, public@),
        scalar_in_range(r@),
{
    let secret_key = ed25519_dalek::SecretKey::from_bytes(secret).unwrap();
    let expanded = ed25519_dalek::ExpandedSecretKey::from(&secret_key);
    let public_key = ed25519_dalek::PublicKey::from_bytes(public).unwrap();
    expanded.sign(message, &public_key).to_bytes()
}

/// Calls `ed25519_dalek::Verifier::verify` on an `ed25519_dalek::PublicKey`.
/// Trusted: the verdict depends on the three arguments alone.
#[verifier::external_body]
fn verify_detached(public: &[u8; KEY_LENGTH], message: &[u8], signature: &[u8; SIGNATURE_LENGTH])
    -> (r: bool)
    requires
        point_decompresses(public@),
        scalar_in_range(signature@),
    ensures
        r == signature_verifies(public@, message@, signature@),
{
    let public_key = ed25519_dalek::PublicKey::from_bytes(public).unwrap();
    let signature = ed25519_dalek::Signature::from_bytes(signature).unwrap();
    ed25519_dalek::Verifier::verify(&public_key, message, &signature).is_ok()
}

/// Calls `rand::RngCore::fill_bytes` on `rand::rngs::OsRng`. Nothing is
/// promised of the bytes: they come from the operating system.
#[verifier::external_body]
fn random_key_bytes() -> (r: [u8; KEY_LENGTH]) {
    let mut bytes = [0u8; KEY_LENGTH];
    rand::RngCore::fill_bytes(&mut rand::rngs::OsRng, &mut bytes);
    bytes
}

/// A public key: 32 bytes that are the compressed form of a curve point.
#[derive(Clone, Copy, Debug, PartialEq, Eq, PartialOrd, Ord, Hash)]
pub struct PublicKey {
    bytes: [u8; KEY_LENGTH],
}

/// A private key: 32 bytes.
pub struct PrivateKey {
    bytes: [u8; KEY_LENGTH],
}

/// A signature: 64 bytes, a point and a scalar.
#[derive(Clone, Copy, Debug, PartialEq, Eq, Hash)]
pub struct Signature {
    bytes: [u8; SIGNATURE_LENGTH],
}

/// A private key with the public key that goes with it.
pub struct KeyPair {
    public_key: PublicKey,
    private_key: PrivateKey,
}

impl View for PublicKey {
    type V = Seq<u8>;

    closed spec fn view(&self) -> Seq<u8> {
        self.bytes@
    }
}

impl View for PrivateKey {
    type V = Seq<u8>;

    closed spec fn view(&self) -> Seq<u8> {
        self.bytes@
    }
}

impl View for Signature {
    type V = Seq<u8>;

    closed spec fn view(&self) -> Seq<u8> {
        self.bytes@
    }
}

impl PublicKey {
    /// Every public key that exists at run time is a curve point.
    #[verifier::type_invariant]
    pub closed spec fn on_curve(self) -> bool {
        point_decompresses(self.bytes@)
    }

    /// What `on_curve` says of the bytes.
    pub proof fn lemma_on_curve(self)
        requires
            self.on_curve(),
        ensures
            self@.len() == KEY_LENGTH,
            point_decompresses(self@),
    {
    }

    /// Two public keys with the same bytes are the same key.
    pub proof fn lemma_ext_equal(self, other: PublicKey)
        requires
            self@ == other@,
        ensures
            self == other,
    {
        assert(self.bytes =~= other.bytes);
    }

    /// A public key of a fresh random private key.
    pub fn random() -> (r: PublicKey)
        ensures
            exists|secret: Seq<u8>| r@ == public_key_of(secret),
    {
        let pair = KeyPair::new();
        pair.public_key
    }

    /// Whether `signature` holds for the bytes of `hash` under this key.
    pub fn verify_signature(&self, hash: &hash::Hash, signature: &Signature) -> (r: bool)
        ensures
            r == signature_verifies(self@, hash@, signature@),
    {
        proof {
            use_type_invariant(self);
            use_type_invariant(signature);
        }
        verify_detached(&self.bytes, hash.as_bytes().as_slice(), &signature.bytes)
    }

    /// The bytes of the key.
    pub fn as_bytes(&self) -> (r: &[u8; KEY_LENGTH])
        ensures
            r@ == self@,
            point_decompresses(r@),
    {
        proof {
            use_type_invariant(self);
        }
        &self.bytes
    }
}

impl PrivateKey {
    /// The private key that holds `bytes`.
    pub fn from_bytes(bytes: &[u8]) -> (r: PrivateKey)
        requires
            bytes@.len() == KEY_LENGTH,
        ensures
            r@ == bytes@,
    {
        let mut out: [u8; KEY_LENGTH] = [0u8; KEY_LENGTH];
        let mut i: usize = 0;
        while i < KEY_LENGTH
            invariant
                i <= KEY_LENGTH,
                bytes@.len() == KEY_LENGTH,
                forall|j: int| 0 <= j < i ==> out@[j] == bytes@[j],
            decreases KEY_LENGTH - i,
        {
            out[i] = bytes[i];
            i += 1;
        }
        assert(out@ =~= bytes@);
        PrivateKey { bytes: out }
    }

    /// The signature of `data` by this key, bound to `public_key`.
    pub fn sign(&self, data: &[u8], public_key: &PublicKey) -> (r: Signature)
        ensures
            r@ == signature_of(self@, data@, public_key@),
    {
        proof {
            use_type_invariant(public_key);
        }
        Signature { bytes: sign_detached(&self.bytes, data, &public_key.bytes) }
    }
}

impl KeyPair {
    /// A fresh pair, from 32 bytes of the operating system's randomness.
    pub fn new() -> (r: KeyPair)
        ensures
            r.public()@ == public_key_of(r.private()@),
    {
        let bytes = random_key_bytes();
        KeyPair::from_private_key(PrivateKey { bytes })
    }

    /// The pair of `private_key` and the public key derived from it.
    pub fn from_private_key(private_key: PrivateKey) -> (r: KeyPair)
        ensures
            r.private() == private_key,
            r.public()@ == public_key_of(private_key@),
    {
        let public = derive_public(&private_key.bytes);
        KeyPair { public_key: PublicKey { bytes: public }, private_key }
    }

    /// The pair of the two keys given, which need not belong together.
    pub fn from_keys(public_key: PublicKey, private_key: PrivateKey) -> (r: KeyPair)
        ensures
            r.public() == public_key,
            r.private() == private_key,
    {
        KeyPair { public_key, private_key }
    }

    /// The public key of the pair.
    pub closed spec fn public(self) -> PublicKey {
        self.public_key
    }

    /// The private key of the pair.
    pub closed spec fn private(self) -> PrivateKey {
        self.private_key
    }

    /// The public key of the pair.
    pub fn get_public_key(&self) -> (r: &PublicKey)
        ensures
            *r == self.public(),
    {
        &self.public_key
    }

    /// The private key of the pair.
    pub fn get_private_key(&self) -> (r: &PrivateKey)
        ensures
            *r == self.private(),
    {
        &self.private_key
    }

    /// The signature of `data` by the private key, bound to the public key.
    pub fn sign(&self, data: &[u8]) -> (r: Signature)
        ensures
            r@ == signature_of(self.private()@, data@, self.public()@),
    {
        self.private_key.sign(data, &self.public_key)
    }
}

impl Signature {
    /// Every signature that exists at run time has a scalar half in range.
    #[verifier::type_invariant]
    pub closed spec fn in_range(self) -> bool {
        scalar_in_range(self.bytes@)
    }

    /// What `in_range` says of the bytes.
    pub proof fn lemma_in_range(self)
        requires
            self.in_range(),
        ensures
            self@.len() == SIGNATURE_LENGTH,
            scalar_in_range(self@),
    {
    }

    /// The signature as lower-case hexadecimal text.
    pub fn to_hex(&self) -> (r: String)
        ensures
            r@ == hex::hex_text(self@),
    {
        hex::encode(self.bytes.as_slice())
    }
}

/// A public key is encoded as its 32 bytes; bytes that are no curve point are
/// refused.
impl Serializer for PublicKey {
    type Model = Seq<u8>;

    open spec fn model(&self) -> Seq<u8> {
        self@
    }

    open spec fn valid(m: Seq<u8>) -> bool {
        m.len() == KEY_LENGTH && point_decompresses(m)
    }

    open spec fn encoding(m: Seq<u8>) -> Seq<u8> {
        m
    }

    open spec fn decoding(input: Seq<u8>) -> Result<(Seq<u8>, Seq<u8>), ReaderError> {
        match take_bytes(input, KEY_LENGTH as nat) {
            Err(e) => Err(e),
            Ok((head, rest)) => if point_decompresses(head) {
                Ok((head, rest))
            } else {
                Err(ReaderError::ErrorTryInto)
            },
        }
    }

    fn write(&self, writer: &mut Writer) {
        writer.write_bytes(self.bytes.as_slice());
        assert(Self::encoding(self.model()) == self@);
    }

    fn read(reader: &mut Reader<'_>) -> (r: Result<Self, ReaderError>) {
        let bytes = reader.read_bytes_32()?;
        if is_curve_point(&bytes) {
            Ok(PublicKey { bytes })
        } else {
            Err(ReaderError::ErrorTryInto)
        }
    }

    proof fn lemma_round_trip(m: Seq<u8>, rest: Seq<u8>) {
        assert((m + rest).take(KEY_LENGTH as int) =~= m);
        assert((m + rest).skip(KEY_LENGTH as int) =~= rest);
    }

    proof fn lemma_decoding_sound(input: Seq<u8>) {
        if let Ok((head, rest)) = take_bytes(input, KEY_LENGTH as nat) {
            assert(input =~= head + rest);
        }
    }
}

/// A private key is encoded as its 32 bytes.
impl Serializer for PrivateKey {
    type Model = Seq<u8>;

    open spec fn model(&self) -> Seq<u8> {
        self@
    }

    open spec fn valid(m: Seq<u8>) -> bool {
        m.len() == KEY_LENGTH
    }

    open spec fn encoding(m: Seq<u8>) -> Seq<u8> {
        m
    }

    open spec fn decoding(input: Seq<u8>) -> Result<(Seq<u8>, Seq<u8>), ReaderError> {
        take_bytes(input, KEY_LENGTH as nat)
    }

    fn write(&self, writer: &mut Writer) {
        writer.write_bytes(self.bytes.as_slice());
    }

    fn read(reader: &mut Reader<'_>) -> (r: Result<Self, ReaderError>) {
        let bytes = reader.read_bytes_32()?;
        Ok(PrivateKey { bytes })
    }

    proof fn lemma_round_trip(m: Seq<u8>, rest: Seq<u8>) {
        assert((m + rest).take(KEY_LENGTH as int) =~= m);
        assert((m + rest).skip(KEY_LENGTH as int) =~= rest);
    }

    proof fn lemma_decoding_sound(input: Seq<u8>) {
        if let Ok((head, rest)) = take_bytes(input, KEY_LENGTH as nat) {
            assert(input =~= head + rest);
        }
    }
}

/// A key pair is encoded as the public key, then the private key.
impl Serializer for KeyPair {
    type Model = (Seq<u8>, Seq<u8>);

    open spec fn model(&self) -> (Seq<u8>, Seq<u8>) {
        (self.public()@, self.private()@)
    }

    open spec fn valid(m: (Seq<u8>, Seq<u8>)) -> bool {
        PublicKey::valid(m.0) && PrivateKey::valid(m.1)
    }

    open spec fn encoding(m: (Seq<u8>, Seq<u8>)) -> Seq<u8> {
        m.0 + m.1
    }

    open spec fn decoding(input: Seq<u8>) -> Result<((Seq<u8>, Seq<u8>), Seq<u8>), ReaderError> {
        match PublicKey::decoding(input) {
            Err(e) => Err(e),
            Ok((public, rest)) => match PrivateKey::decoding(rest) {
                Err(e) => Err(e),
                Ok((private, rest)) => Ok(((public, private), rest)),
            },
        }
    }

    fn write(&self, writer: &mut Writer) {
        self.public_key.write(writer);
        self.private_key.write(writer);
        assert(writer@ =~= old(writer)@ + (self.public()@ + self.private()@));
    }

    fn read(reader: &mut Reader<'_>) -> (r: Result<Self, ReaderError>) {
        let public_key = PublicKey::read(reader)?;
        let private_key = PrivateKey::read(reader)?;
        Ok(KeyPair::from_keys(public_key, private_key))
    }

    proof fn lemma_round_trip(m: (Seq<u8>, Seq<u8>), rest: Seq<u8>) {
        assert(m.0 + m.1 + rest =~= m.0 + (m.1 + rest));
        PublicKey::lemma_round_trip(m.0, m.1 + rest);
        PrivateKey::lemma_round_trip(m.1, rest);
    }

    proof fn lemma_decoding_sound(input: Seq<u8>) {
        PublicKey::lemma_decoding_sound(input);
        if let Ok((public, middle)) = PublicKey::decoding(input) {
            PrivateKey::lemma_decoding_sound(middle);
            if let Ok((private, rest)) = PrivateKey::decoding(middle) {
                assert(input =~= public + private + rest);
            }
        }
    }
}

/// A signature is encoded as its 64 bytes; a scalar half out of range is
/// refused.
impl Serializer for Signature {
    type Model = Seq<u8>;

    open spec fn model(&self) -> Seq<u8> {
        self@
    }

    open spec fn valid(m: Seq<u8>) -> bool {
        m.len() == SIGNATURE_LENGTH && scalar_in_range(m)
    }

    open spec fn encoding(m: Seq<u8>) -> Seq<u8> {
        m
    }

    open spec fn decoding(input: Seq<u8>) -> Result<(Seq<u8>, Seq<u8>), ReaderError> {
        match take_bytes(input, SIGNATURE_LENGTH as nat) {
            Err(e) => Err(e),
            Ok((head, rest)) => if scalar_in_range(head) {
                Ok((head, rest))
            } else {
                Err(ReaderError::ErrorTryInto)
            },
        }
    }

    fn write(&self, writer: &mut Writer) {
        writer.write_bytes(self.bytes.as_slice());
    }

    fn read(reader: &mut Reader<'_>) -> (r: Result<Self, ReaderError>) {
        let bytes = reader.read_bytes_64()?;
        if bytes[SIGNATURE_LENGTH - 1] & 0b1110_0000 == 0 {
            Ok(Signature { bytes })
        } else {
            Err(ReaderError::ErrorTryInto)
        }
    }

    proof fn lemma_round_trip(m: Seq<u8>, rest: Seq<u8>) {
        assert((m + rest).take(SIGNATURE_LENGTH as int) =~= m);
        assert((m + rest).skip(SIGNATURE_LENGTH as int) =~= rest);
    }

    proof fn lemma_decoding_sound(input: Seq<u8>) {
        if let Ok((head, rest)) = take_bytes(input, SIGNATURE_LENGTH as nat) {
            assert(input =~= head + rest);
        }
    }
}

} // verus!
