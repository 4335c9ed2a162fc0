//! The block header, a node of the DAG, and the block that carries its
//! transactions.

use std::sync::Arc;
use vstd::prelude::*;
use crate::crypto::hash;
use crate::crypto::hash::{digest, HASH_SIZE};
use crate::crypto::key::{PublicKey, KEY_LENGTH};
use crate::immutable::Immutable;
use crate::serializer::bytes::{
    be_bytes,
    lemma_be_bytes_len,
    lemma_be_value_of_bytes,
    lemma_pow256_widths,
    pow256,
};
use crate::serializer::codec::Serializer;
use crate::serializer::error::ReaderError;
use crate::serializer::hex;
use crate::serializer::reader::{take_bytes, take_uint, Reader};
use crate::serializer::sequence::{
    all_valid,
    decode_many,
    encode_many,
    lemma_decode_many_fails,
    lemma_decode_many_sound,
    lemma_be_bytes_one,
    lemma_concat_assoc,
    lemma_many_round_trip,
    lemma_take_bytes_sound,
    lemma_take_bytes_concat,
    lemma_take_uint_concat,
    lemma_take_uint_sound,
    models,
    read_many,
    write_many,
};
use crate::serializer::writer::Writer;

verus! {

/// Number of bytes in the nonce extension.
pub const EXTRA_NONCE_SIZE: usize = 32;

/// Number of bytes in the work buffer of a header.
pub const HEADER_WORK_SIZE: usize = 73;

/// Number of bytes in the proof-of-work input of a header.
pub const BLOCK_WORK_SIZE: usize = 120;

/// The difficulty of a block.
pub type Difficulty = u64;

/// The text form of a nonce extension: its 64 lower-case hexadecimal digits.
pub fn serialize_extra_nonce(extra_nonce: &[u8; EXTRA_NONCE_SIZE]) -> (r: String)
    ensures
        r@ == hex::hex_text(extra_nonce@),
{
    hex::encode(extra_nonce.as_slice())
}

/// The nonce extension that a text of hexadecimal digits spells. A text that
/// is not hexadecimal is refused; one that is must spell exactly 32 bytes.
pub fn deserialize_extra_nonce(text: &str) -> (r: Result<[u8; EXTRA_NONCE_SIZE], ReaderError>)
    requires
        hex::is_hex(text@) ==> text@.len() == 2 * EXTRA_NONCE_SIZE,
    ensures
        match r {
            Ok(extra_nonce) => hex::is_hex(text@) && extra_nonce@ == hex::hex_bytes(text@),
            Err(e) => !hex::is_hex(text@) && e == ReaderError::InvalidHex,
        },
{
    match hex::decode(text) {
        Some(decoded) => {
            let mut extra_nonce: [u8; EXTRA_NONCE_SIZE] = [0u8; EXTRA_NONCE_SIZE];
            let mut i: usize = 0;
            while i < EXTRA_NONCE_SIZE
                invariant
                    i <= EXTRA_NONCE_SIZE,
                    decoded@.len() == EXTRA_NONCE_SIZE,
                    forall|j: int| 0 <= j < i ==> extra_nonce@[j] == decoded@[j],
                decreases EXTRA_NONCE_SIZE - i,
            {
                extra_nonce[i] = decoded[i];
                i += 1;
            }
            assert(extra_nonce@ =~= decoded@);
            Ok(extra_nonce)
        },
        None => Err(ReaderError::InvalidHex),
    }
}

/// The timestamp as it stands in text formats: its low-order 64 bits.
pub fn serialize_timestamp(timestamp: &u128) -> (r: u64)
    ensures
        r == *timestamp % 0x1_0000_0000_0000_0000,
{
    (*timestamp % 0x1_0000_0000_0000_0000) as u64
}

/// The timestamp that a text format holds as 64 bits.
pub fn deserialize_timestamp(value: u64) -> (r: u128)
    ensures
        r == value,
{
    value as u128
}

/// A block header: a node of the DAG.
///
/// `tips` names the parents, `txs_hashes` the transactions committed to.
/// Neither count is checked when a header is made or decoded.
#[derive(Clone, Debug)]
pub struct BlockHeader {
    pub version: u8,
    pub tips: Vec<hash::Hash>,
    pub timestamp: u128,
    pub height: u64,
    pub nonce: u64,
    pub extra_nonce: [u8; EXTRA_NONCE_SIZE],
    pub miner: PublicKey,
    pub txs_hashes: Vec<hash::Hash>,
}

/// The mathematical value of a header.
pub struct HeaderModel {
    pub version: u8,
    pub height: u64,
    pub timestamp: u128,
    pub nonce: u64,
    pub extra_nonce: Seq<u8>,
    pub miner: Seq<u8>,
    pub tips: Seq<Seq<u8>>,
    pub txs_hashes: Seq<Seq<u8>>,
}

impl HeaderModel {
    /// The commitment to the parents: the digest of their hashes in order.
    pub open spec fn tips_hash(self) -> Seq<u8> {
        digest(encode_many::<hash::Hash>(self.tips))
    }

    /// The commitment to the transactions: the digest of their hashes in order.
    pub open spec fn txs_hash(self) -> Seq<u8> {
        digest(encode_many::<hash::Hash>(self.txs_hashes))
    }

    /// The work buffer: version, height and the two commitments. It holds
    /// nothing that a miner varies.
    pub open spec fn work(self) -> Seq<u8> {
        seq![self.version] + be_bytes(self.height as nat, 8) + self.tips_hash() + self.txs_hash()
    }

    /// The digest of the work buffer.
    pub open spec fn work_hash(self) -> Seq<u8> {
        digest(self.work())
    }

    /// The proof-of-work input: the work hash, then every field that a miner
    /// varies.
    pub open spec fn serialized(self) -> Seq<u8> {
        self.work_hash() + be_bytes(self.timestamp as nat, 16) + be_bytes(self.nonce as nat, 8)
            + self.extra_nonce + self.miner
    }

    /// The proof-of-work hash, which is also the identity of the header.
    pub open spec fn pow_hash(self) -> Seq<u8> {
        digest(self.serialized())
    }

    /// The fields of the canonical encoding that come before the parents.
    pub open spec fn fixed_part(self) -> Seq<u8> {
        seq![self.version] + be_bytes(self.height as nat, 8) + be_bytes(
            self.timestamp as nat,
            16,
        ) + be_bytes(self.nonce as nat, 8) + self.extra_nonce
    }

    /// The fields of the canonical encoding from the parents on: the count of
    /// parents in one byte and their hashes, the count of transaction hashes
    /// in two bytes and the hashes, and the miner's key. Of a list longer
    /// than its count can say, only the low-order part of the count is kept.
    pub open spec fn lists_part(self) -> Seq<u8> {
        seq![(self.tips.len() % 256) as u8] + encode_many::<hash::Hash>(self.tips) + be_bytes(
            self.txs_hashes.len() % 65536,
            2,
        ) + encode_many::<hash::Hash>(self.txs_hashes) + self.miner
    }

    /// The canonical encoding: version, height, timestamp, nonce, nonce
    /// extension, parents, transaction hashes, miner.
    pub open spec fn encoding(self) -> Seq<u8> {
        self.fixed_part() + self.lists_part()
    }

    /// The headers that the canonical encoding represents faithfully: the
    /// counts fit their width, and every hash and key has its length.
    pub open spec fn valid(self) -> bool {
        &&& self.extra_nonce.len() == EXTRA_NONCE_SIZE
        &&& PublicKey::valid(self.miner)
        &&& self.tips.len() <= 255
        &&& all_valid::<hash::Hash>(self.tips)
        &&& self.txs_hashes.len() <= 65535
        &&& all_valid::<hash::Hash>(self.txs_hashes)
    }
}

/// The header at the head of `input`, read field by field in the order of the
/// canonical encoding, and the bytes after it. The counts are taken as they
/// stand; no bound is laid on them.
pub open spec fn decode_header(input: Seq<u8>) -> Result<(HeaderModel, Seq<u8>), ReaderError> {
    match decode_fixed(input) {
        Err(e) => Err(e),
        Ok(((version, height, timestamp, nonce, extra_nonce), rest)) => match decode_lists(rest) {
            Err(e) => Err(e),
            Ok(((tips, txs_hashes, miner), rest)) => Ok(
                (
                    HeaderModel {
                        version,
                        height,
                        timestamp,
                        nonce,
                        extra_nonce,
                        miner,
                        tips,
                        txs_hashes,
                    },
                    rest,
                ),
            ),
        },
    }
}

/// The version, the height, the timestamp, the nonce and the nonce extension
/// at the head of `input`.
pub open spec fn decode_fixed(input: Seq<u8>) -> Result<
    ((u8, u64, u128, u64, Seq<u8>), Seq<u8>),
    ReaderError,
> {
    match take_uint(input, 1) {
        Err(e) => Err(e),
        Ok((version, rest)) => match take_uint(rest, 8) {
            Err(e) => Err(e),
            Ok((height, rest)) => match take_uint(rest, 16) {
                Err(e) => Err(e),
                Ok((timestamp, rest)) => match take_uint(rest, 8) {
                    Err(e) => Err(e),
                    Ok((nonce, rest)) => match take_bytes(rest, EXTRA_NONCE_SIZE as nat) {
                        Err(e) => Err(e),
                        Ok((extra_nonce, rest)) => Ok(
                            (
                                (
                                    version as u8,
                                    height as u64,
                                    timestamp as u128,
                                    nonce as u64,
                                    extra_nonce,
                                ),
                                rest,
                            ),
                        ),
                    },
                },
            },
        },
    }
}

/// The counted list of parents, the counted list of transaction hashes and
/// the miner's key at the head of `input`.
pub open spec fn decode_lists(input: Seq<u8>) -> Result<
    ((Seq<Seq<u8>>, Seq<Seq<u8>>, Seq<u8>), Seq<u8>),
    ReaderError,
> {
    match take_uint(input, 1) {
        Err(e) => Err(e),
        Ok((tips_count, rest)) => match decode_many::<hash::Hash>(rest, tips_count) {
            Err(e) => Err(e),
            Ok((tips, rest)) => match take_uint(rest, 2) {
                Err(e) => Err(e),
                Ok((txs_count, rest)) => match decode_many::<hash::Hash>(rest, txs_count) {
                    Err(e) => Err(e),
                    Ok((txs_hashes, rest)) => match PublicKey::decoding(rest) {
                        Err(e) => Err(e),
                        Ok((miner, rest)) => Ok(((tips, txs_hashes, miner), rest)),
                    },
                },
            },
        },
    }
}

impl View for BlockHeader {
    type V = HeaderModel;

    open spec fn view(&self) -> HeaderModel {
        HeaderModel {
            version: self.version,
            height: self.height,
            timestamp: self.timestamp,
            nonce: self.nonce,
            extra_nonce: self.extra_nonce@,
            miner: self.miner@,
            tips: models(self.tips@),
            txs_hashes: models(self.txs_hashes@),
        }
    }
}

/// Something with an identity hash.
pub trait Hashable {
    /// The identity of the value.
    spec fn identity(&self) -> Seq<u8>;

    /// Computes the identity of the value.
    fn hash(&self) -> (r: hash::Hash)
        ensures
            r@ == self.identity(),
    ;
}

/// The digest of the hashes of `hashes`, one after another.
fn commitment(hashes: &Vec<hash::Hash>) -> (r: hash::Hash)
    ensures
        r@ == digest(encode_many::<hash::Hash>(models(hashes@))),
{
    let mut writer = Writer::new();
    write_many(hashes, &mut writer);
    assert(writer@ =~= encode_many::<hash::Hash>(models(hashes@)));
    let bytes = writer.bytes();
    hash::hash(bytes.as_slice())
}

impl BlockHeader {
    /// A header with the fields given and a nonce of zero. The number of
    /// parents and of transactions is not checked.
    pub fn new(
        version: u8,
        height: u64,
        timestamp: u128,
        tips: Vec<hash::Hash>,
        extra_nonce: [u8; EXTRA_NONCE_SIZE],
        miner: PublicKey,
        txs_hashes: Vec<hash::Hash>,
    ) -> (r: BlockHeader)
        ensures
            r.version == version,
            r.height == height,
            r.timestamp == timestamp,
            r.tips == tips,
            r.nonce == 0,
            r.extra_nonce == extra_nonce,
            r.miner == miner,
            r.txs_hashes == txs_hashes,
    {
        BlockHeader { version, height, timestamp, tips, nonce: 0, extra_nonce, miner, txs_hashes }
    }

    pub fn get_version(&self) -> (r: u8)
        ensures
            r == self.version,
    {
        self.version
    }

    /// Replaces the miner's key. The work hash does not change.
    pub fn set_miner(&mut self, key: PublicKey)
        ensures
            *final(self) == (BlockHeader { miner: key, ..*old(self) }),
            final(self)@.work_hash() == old(self)@.work_hash(),
    {
        self.miner = key;
    }

    /// Replaces the nonce extension. The work hash does not change.
    pub fn set_extra_nonce(&mut self, values: [u8; EXTRA_NONCE_SIZE])
        ensures
            *final(self) == (BlockHeader { extra_nonce: values, ..*old(self) }),
            final(self)@.work_hash() == old(self)@.work_hash(),
    {
        self.extra_nonce = values;
    }

    pub fn get_height(&self) -> (r: u64)
        ensures
            r == self.height,
    {
        self.height
    }

    pub fn get_timestamp(&self) -> (r: u128)
        ensures
            r == self.timestamp,
    {
        self.timestamp
    }

    pub fn get_tips(&self) -> (r: &Vec<hash::Hash>)
        ensures
            *r == self.tips,
    {
        &self.tips
    }

    /// The commitment to the parents: one digest over their hashes in order.
    pub fn get_tips_hash(&self) -> (r: hash::Hash)
        ensures
            r@ == self@.tips_hash(),
    {
        commitment(&self.tips)
    }

    pub fn get_nonce(&self) -> (r: u64)
        ensures
            r == self.nonce,
    {
        self.nonce
    }

    pub fn get_miner(&self) -> (r: &PublicKey)
        ensures
            *r == self.miner,
    {
        &self.miner
    }

    pub fn get_extra_nonce(&self) -> (r: &[u8; EXTRA_NONCE_SIZE])
        ensures
            *r == self.extra_nonce,
    {
        &self.extra_nonce
    }

    pub fn get_txs_hashes(&self) -> (r: &Vec<hash::Hash>)
        ensures
            *r == self.txs_hashes,
    {
        &self.txs_hashes
    }

    pub fn take_txs_hashes(self) -> (r: Vec<hash::Hash>)
        ensures
            r == self.txs_hashes,
    {
        self.txs_hashes
    }

    /// The commitment to the transactions: one digest over their hashes in
    /// order.
    pub fn get_txs_hash(&self) -> (r: hash::Hash)
        ensures
            r@ == self@.txs_hash(),
    {
        commitment(&self.txs_hashes)
    }

    pub fn get_txs_count(&self) -> (r: usize)
        ensures
            r == self.txs_hashes@.len(),
    {
        self.txs_hashes.len()
    }

    /// The work buffer: version, height, and the commitments to the parents
    /// and to the transactions. It always has `HEADER_WORK_SIZE` bytes.
    pub fn get_work(&self) -> (r: Vec<u8>)
        ensures
            r@ == self@.work(),
            r@.len() == HEADER_WORK_SIZE,
    {
        let mut writer = Writer::new();
        writer.write_u8(self.version);
        writer.write_u64(&self.height);
        let tips_hash = self.get_tips_hash();
        writer.write_hash(&tips_hash);
        let txs_hash = self.get_txs_hash();
        writer.write_hash(&txs_hash);
        proof {
            lemma_be_bytes_len(self.height as nat, 8);
            tips_hash.lemma_len();
            txs_hash.lemma_len();
            assert(writer@ =~= self@.work());
        }
        writer.bytes()
    }

    /// The digest of the work buffer. It does not depend on the timestamp,
    /// the nonce, the nonce extension or the miner.
    pub fn get_work_hash(&self) -> (r: hash::Hash)
        ensures
            r@ == self@.work_hash(),
    {
        let work = self.get_work();
        hash::hash(work.as_slice())
    }

    /// The proof-of-work input: the work hash, the timestamp, the nonce, the
    /// nonce extension and the miner's key. It always has `BLOCK_WORK_SIZE`
    /// bytes.
    pub fn get_serialized_header(&self) -> (r: Vec<u8>)
        ensures
            r@ == self@.serialized(),
            r@.len() == BLOCK_WORK_SIZE,
    {
        let mut writer = Writer::new();
        let work_hash = self.get_work_hash();
        writer.write_hash(&work_hash);
        writer.write_u128(&self.timestamp);
        writer.write_u64(&self.nonce);
        writer.write_bytes(self.extra_nonce.as_slice());
        writer.write_bytes(self.miner.as_bytes().as_slice());
        proof {
            lemma_be_bytes_len(self.timestamp as nat, 16);
            lemma_be_bytes_len(self.nonce as nat, 8);
            work_hash.lemma_len();
            assert(writer@ =~= self@.serialized());
        }
        writer.bytes()
    }

    /// The proof-of-work hash: the digest of the proof-of-work input.
    pub fn get_pow_hash(&self) -> (r: hash::Hash)
        ensures
            r@ == self@.pow_hash(),
    {
        let input = self.get_serialized_header();
        hash::hash(input.as_slice())
    }

    pub fn get_transactions(&self) -> (r: &Vec<hash::Hash>)
        ensures
            *r == self.txs_hashes,
    {
        &self.txs_hashes
    }
}

/// The identity of a header is its proof-of-work hash.
impl Hashable for BlockHeader {
    open spec fn identity(&self) -> Seq<u8> {
        self@.pow_hash()
    }

    fn hash(&self) -> (r: hash::Hash) {
        let input = self.get_serialized_header();
        hash::hash(input.as_slice())
    }
}

impl Serializer for BlockHeader {
    type Model = HeaderModel;

    open spec fn model(&self) -> HeaderModel {
        self@
    }

    open spec fn valid(m: HeaderModel) -> bool {
        m.valid()
    }

    open spec fn encoding(m: HeaderModel) -> Seq<u8> {
        m.encoding()
    }

    open spec fn decoding(input: Seq<u8>) -> Result<(HeaderModel, Seq<u8>), ReaderError> {
        decode_header(input)
    }

    fn write(&self, writer: &mut Writer) {
        writer.write_u8(self.version);
        writer.write_u64(&self.height);
        writer.write_u128(&self.timestamp);
        writer.write_u64(&self.nonce);
        writer.write_bytes(self.extra_nonce.as_slice());
        assert(writer@ =~= old(writer)@ + self@.fixed_part());
        writer.write_u8((self.tips.len() % 256) as u8);
        write_many(&self.tips, writer);
        writer.write_u16((self.txs_hashes.len() % 65536) as u16);
        write_many(&self.txs_hashes, writer);
        self.miner.write(writer);
        assert(writer@ =~= old(writer)@ + self@.encoding());
    }

    fn read(reader: &mut Reader<'_>) -> (r: Result<Self, ReaderError>) {
        let version = reader.read_u8()?;
        let height = reader.read_u64()?;
        let timestamp = reader.read_u128()?;
        let nonce = reader.read_u64()?;
        let extra_nonce = reader.read_bytes_32()?;
        let tips_count = reader.read_u8()?;
        let tips = read_many::<hash::Hash>(reader, tips_count as usize)?;
        let txs_count = reader.read_u16()?;
        let txs_hashes = read_many::<hash::Hash>(reader, txs_count as usize)?;
        let miner = PublicKey::read(reader)?;
        Ok(BlockHeader { version, extra_nonce, height, timestamp, tips, miner, nonce, txs_hashes })
    }

    proof fn lemma_round_trip(m: HeaderModel, rest: Seq<u8>) {
        let tail = m.lists_part() + rest;
        lemma_concat_assoc(m.fixed_part(), m.lists_part(), rest);
        lemma_fixed_round_trip(m, tail);
        lemma_lists_round_trip(m, rest);
    }

    proof fn lemma_decoding_sound(input: Seq<u8>) {
        lemma_fixed_sound(input);
        if let Ok(((version, height, timestamp, nonce, extra_nonce), middle)) = decode_fixed(
            input,
        ) {
            lemma_lists_sound(middle);
            if let Ok(((tips, txs_hashes, miner), rest)) = decode_lists(middle) {
                let m = HeaderModel {
                    version,
                    height,
                    timestamp,
                    nonce,
                    extra_nonce,
                    miner,
                    tips,
                    txs_hashes,
                };
                assert(input == m.fixed_part() + middle);
                assert(middle == m.lists_part() + rest);
                lemma_concat_assoc(m.fixed_part(), m.lists_part(), rest);
            }
        }
    }
}

/// The fields before the parents decode from their encoding.
proof fn lemma_fixed_round_trip(m: HeaderModel, rest: Seq<u8>)
    requires
        m.extra_nonce.len() == EXTRA_NONCE_SIZE,
    ensures
        decode_fixed(m.fixed_part() + rest) == Ok::<
            ((u8, u64, u128, u64, Seq<u8>), Seq<u8>),
            ReaderError,
        >(((m.version, m.height, m.timestamp, m.nonce, m.extra_nonce), rest)),
{
    lemma_pow256_widths();
    let a = seq![m.version];
    let b = be_bytes(m.height as nat, 8);
    let c = be_bytes(m.timestamp as nat, 16);
    let d = be_bytes(m.nonce as nat, 8);
    let e = m.extra_nonce;
    let r4 = e + rest;
    let r3 = d + r4;
    let r2 = c + r3;
    let r1 = b + r2;
    lemma_concat_assoc(a + b + c + d, e, rest);
    lemma_concat_assoc(a + b + c, d, r4);
    lemma_concat_assoc(a + b, c, r3);
    lemma_concat_assoc(a, b, r2);
    assert(m.fixed_part() + rest == a + r1);
    lemma_be_bytes_one(m.version as nat);
    lemma_take_uint_concat(m.version as nat, 1, r1);
    lemma_take_uint_concat(m.height as nat, 8, r2);
    lemma_take_uint_concat(m.timestamp as nat, 16, r3);
    lemma_take_uint_concat(m.nonce as nat, 8, r4);
    lemma_take_bytes_concat(e, rest);
}

/// The fields before the parents that decode are followed by a nonce
/// extension of 32 bytes, and the input is their encoding and the rest.
proof fn lemma_fixed_sound(input: Seq<u8>)
    ensures
        decode_fixed(input) matches Ok(((version, height, timestamp, nonce, extra_nonce), rest))
            ==> {
            &&& extra_nonce.len() == EXTRA_NONCE_SIZE
            &&& input == seq![version] + be_bytes(height as nat, 8) + be_bytes(
                timestamp as nat,
                16,
            ) + be_bytes(nonce as nat, 8) + extra_nonce + rest
        },
{
    lemma_pow256_widths();
    lemma_take_uint_sound(input, 1);
    if let Ok((version, r1)) = take_uint(input, 1) {
        lemma_take_uint_sound(r1, 8);
        if let Ok((height, r2)) = take_uint(r1, 8) {
            lemma_take_uint_sound(r2, 16);
            if let Ok((timestamp, r3)) = take_uint(r2, 16) {
                lemma_take_uint_sound(r3, 8);
                if let Ok((nonce, r4)) = take_uint(r3, 8) {
                    lemma_take_bytes_sound(r4, EXTRA_NONCE_SIZE as nat);
                    if let Ok((e, rest)) = take_bytes(r4, EXTRA_NONCE_SIZE as nat) {
                        let a = seq![version as u8];
                        let b = be_bytes(height, 8);
                        let c = be_bytes(timestamp, 16);
                        let d = be_bytes(nonce, 8);
                        lemma_be_bytes_one(version);
                        assert(input == a + (b + (c + (d + (e + rest)))));
                        lemma_concat_assoc(a, b, c + (d + (e + rest)));
                        lemma_concat_assoc(a + b, c, d + (e + rest));
                        lemma_concat_assoc(a + b + c, d, e + rest);
                        lemma_concat_assoc(a + b + c + d, e, rest);
                    }
                }
            }
        }
    }
}

/// The lists and the key that decode are valid, and the input is their
/// encoding and the rest.
proof fn lemma_lists_sound(input: Seq<u8>)
    ensures
        decode_lists(input) matches Ok(((tips, txs_hashes, miner), rest)) ==> {
            &&& tips.len() <= 255
            &&& all_valid::<hash::Hash>(tips)
            &&& txs_hashes.len() <= 65535
            &&& all_valid::<hash::Hash>(txs_hashes)
            &&& PublicKey::valid(miner)
            &&& input == seq![(tips.len() % 256) as u8] + encode_many::<hash::Hash>(tips)
                + be_bytes(txs_hashes.len() % 65536, 2) + encode_many::<hash::Hash>(txs_hashes)
                + miner + rest
        },
{
    lemma_pow256_widths();
    lemma_take_uint_sound(input, 1);
    if let Ok((tips_count, r1)) = take_uint(input, 1) {
        lemma_decode_many_sound::<hash::Hash>(r1, tips_count);
        if let Ok((tips, r2)) = decode_many::<hash::Hash>(r1, tips_count) {
            lemma_take_uint_sound(r2, 2);
            if let Ok((txs_count, r3)) = take_uint(r2, 2) {
                lemma_decode_many_sound::<hash::Hash>(r3, txs_count);
                if let Ok((txs_hashes, r4)) = decode_many::<hash::Hash>(r3, txs_count) {
                    PublicKey::lemma_decoding_sound(r4);
                    if let Ok((miner, rest)) = PublicKey::decoding(r4) {
                        let a = seq![(tips.len() % 256) as u8];
                        let b = encode_many::<hash::Hash>(tips);
                        let c = be_bytes(txs_hashes.len() % 65536, 2);
                        let d = encode_many::<hash::Hash>(txs_hashes);
                        lemma_be_bytes_one(tips_count);
                        assert(input == a + (b + (c + (d + (miner + rest)))));
                        lemma_concat_assoc(a, b, c + (d + (miner + rest)));
                        lemma_concat_assoc(a + b, c, d + (miner + rest));
                        lemma_concat_assoc(a + b + c, d, miner + rest);
                        lemma_concat_assoc(a + b + c + d, miner, rest);
                    }
                }
            }
        }
    }
}

/// The lists and the key of a valid header decode from their encoding.
proof fn lemma_lists_round_trip(m: HeaderModel, rest: Seq<u8>)
    requires
        m.valid(),
    ensures
        decode_lists(m.lists_part() + rest) == Ok::<
            ((Seq<Seq<u8>>, Seq<Seq<u8>>, Seq<u8>), Seq<u8>),
            ReaderError,
        >(((m.tips, m.txs_hashes, m.miner), rest)),
{
    lemma_pow256_widths();
    let a = seq![(m.tips.len() % 256) as u8];
    let b = encode_many::<hash::Hash>(m.tips);
    let c = be_bytes(m.txs_hashes.len() % 65536, 2);
    let d = encode_many::<hash::Hash>(m.txs_hashes);
    let e = m.miner;
    let r4 = e + rest;
    let r3 = d + r4;
    let r2 = c + r3;
    let r1 = b + r2;
    lemma_concat_assoc(a + b + c + d, e, rest);
    lemma_concat_assoc(a + b + c, d, r4);
    lemma_concat_assoc(a + b, c, r3);
    lemma_concat_assoc(a, b, r2);
    assert(m.lists_part() + rest == a + r1);
    lemma_be_bytes_one(m.tips.len());
    lemma_take_uint_concat(m.tips.len(), 1, r1);
    assert(take_uint(a + r1, 1) == Ok::<(nat, Seq<u8>), ReaderError>((m.tips.len(), r1)));
    lemma_many_round_trip::<hash::Hash>(m.tips, r2);
    assert(decode_many::<hash::Hash>(r1, m.tips.len()) == Ok::<
        (Seq<Seq<u8>>, Seq<u8>),
        ReaderError,
    >((m.tips, r2)));
    lemma_take_uint_concat(m.txs_hashes.len(), 2, r3);
    assert(take_uint(r2, 2) == Ok::<(nat, Seq<u8>), ReaderError>((m.txs_hashes.len(), r3)));
    lemma_many_round_trip::<hash::Hash>(m.txs_hashes, r4);
    assert(decode_many::<hash::Hash>(r3, m.txs_hashes.len()) == Ok::<
        (Seq<Seq<u8>>, Seq<u8>),
        ReaderError,
    >((m.txs_hashes, r4)));
    PublicKey::lemma_round_trip(m.miner, rest);
}

/// A block: a header and the transactions that it commits to, in order.
///
/// That there are as many transactions as the header has transaction hashes
/// is expected by those who use a block, and checked by no function here: see
/// `BlockModel::counts_agree`.
#[derive(Clone, Debug)]
pub struct Block<T> {
    header: Immutable<BlockHeader>,
    transactions: Vec<Immutable<T>>,
}

/// The mathematical value of a block.
pub struct BlockModel<M> {
    pub header: HeaderModel,
    pub transactions: Seq<M>,
}

impl<M> BlockModel<M> {
    /// Whether the block holds as many transactions as its header has
    /// transaction hashes. Making and decoding a block do not enforce this;
    /// a block for which it fails is not given back by decoding its
    /// encoding.
    pub open spec fn counts_agree(self) -> bool {
        self.transactions.len() == self.header.txs_hashes.len()
    }
}

/// The models of the transactions of a block, in order.
pub open spec fn inner_models<T: Serializer>(items: Seq<Immutable<T>>) -> Seq<T::Model> {
    Seq::new(items.len(), |i: int| items[i].inner().model())
}

impl<T: Serializer> View for Block<T> {
    type V = BlockModel<T::Model>;

    open spec fn view(&self) -> BlockModel<T::Model> {
        BlockModel {
            header: self.header_holder().inner()@,
            transactions: inner_models(self.transaction_holders()@),
        }
    }
}

impl<T: Serializer> Block<T> {
    /// The holder of the header.
    pub closed spec fn header_holder(self) -> Immutable<BlockHeader> {
        self.header
    }

    /// The holders of the transactions.
    pub closed spec fn transaction_holders(self) -> Vec<Immutable<T>> {
        self.transactions
    }

    /// A block of the header and the transactions given. Their counts are
    /// not compared.
    pub fn new(block: Immutable<BlockHeader>, transactions: Vec<Immutable<T>>) -> (r: Block<T>)
        ensures
            r.header_holder() == block,
            r.transaction_holders() == transactions,
    {
        Block { header: block, transactions }
    }

    /// The header as a shared value, giving up the block.
    pub fn to_header(self) -> (r: Arc<BlockHeader>)
        ensures
            *r == self.header_holder().inner(),
    {
        self.header.to_arc()
    }

    pub fn get_header(&self) -> (r: &BlockHeader)
        ensures
            *r == self.header_holder().inner(),
    {
        self.header.get_inner()
    }

    /// The number of transactions held, which need not be the number of
    /// transaction hashes in the header.
    pub fn get_txs_count(&self) -> (r: usize)
        ensures
            r == self@.transactions.len(),
    {
        self.transactions.len()
    }

    pub fn get_transactions(&self) -> (r: &Vec<Immutable<T>>)
        ensures
            *r == self.transaction_holders(),
    {
        &self.transactions
    }

    /// The header and the transactions, giving up the block.
    pub fn split(self) -> (r: (Immutable<BlockHeader>, Vec<Immutable<T>>))
        ensures
            r.0 == self.header_holder(),
            r.1 == self.transaction_holders(),
    {
        (self.header, self.transactions)
    }
}

/// A block can stand where its header is asked for.
impl<T: Serializer> std::ops::Deref for Block<T> {
    type Target = BlockHeader;

    fn deref(&self) -> (r: &BlockHeader)
        ensures
            *r == self.header_holder().inner(),
    {
        self.get_header()
    }
}

/// The identity of a block is that of its header.
impl<T: Serializer> Hashable for Block<T> {
    open spec fn identity(&self) -> Seq<u8> {
        self@.header.pow_hash()
    }

    fn hash(&self) -> (r: hash::Hash) {
        self.header.get_inner().hash()
    }
}

/// A block is encoded as its header, then its transactions in order. Their
/// number is not written: a decoder takes it from the header.
impl<T: Serializer> Serializer for Block<T> {
    type Model = BlockModel<T::Model>;

    open spec fn model(&self) -> BlockModel<T::Model> {
        self@
    }

    open spec fn valid(m: BlockModel<T::Model>) -> bool {
        &&& m.header.valid()
        &&& all_valid::<T>(m.transactions)
        &&& m.counts_agree()
    }

    open spec fn encoding(m: BlockModel<T::Model>) -> Seq<u8> {
        m.header.encoding() + encode_many::<T>(m.transactions)
    }

    open spec fn decoding(input: Seq<u8>) -> Result<(BlockModel<T::Model>, Seq<u8>), ReaderError> {
        match decode_header(input) {
            Err(e) => Err(e),
            Ok((header, rest)) => match decode_many::<T>(rest, header.txs_hashes.len()) {
                Err(e) => Err(e),
                Ok((transactions, rest)) => Ok((BlockModel { header, transactions }, rest)),
            },
        }
    }

    fn write(&self, writer: &mut Writer) {
        self.header.get_inner().write(writer);
        let n = self.transactions.len();
        let mut i: usize = 0;
        let ghost start = writer@;
        let ghost txs = inner_models(self.transactions@);
        assert(txs.take(0) =~= Seq::<T::Model>::empty());
        while i < n
            invariant
                i <= n,
                n == self.transactions@.len(),
                txs == inner_models(self.transactions@),
                writer@ == start + encode_many::<T>(txs.take(i as int)),
            decreases n - i,
        {
            self.transactions[i].get_inner().write(writer);
            proof {
                let done = txs.take(i as int);
                assert(txs.take(i + 1) =~= done.push(txs[i as int]));
                assert(done.push(txs[i as int]).drop_last() =~= done);
                assert(writer@ =~= start + encode_many::<T>(txs.take(i + 1)));
            }
            i += 1;
        }
        assert(txs.take(n as int) =~= txs);
        assert(writer@ =~= old(writer)@ + Self::encoding(self@));
    }

    fn read(reader: &mut Reader<'_>) -> (r: Result<Self, ReaderError>) {
        let block = BlockHeader::read(reader)?;
        let count = block.get_txs_count();
        let mut txs: Vec<Immutable<T>> = Vec::new();
        let mut i: usize = 0;
        let ghost input = reader.remaining();
        assert(inner_models(txs@) =~= Seq::<T::Model>::empty());
        while i < count
            invariant
                i <= count,
                txs@.len() == i,
                old(reader).leads_to(*reader),
                decode_header(old(reader).remaining()) == Ok::<(HeaderModel, Seq<u8>), ReaderError>(
                    (block@, input),
                ),
                count == block@.txs_hashes.len(),
                decode_many::<T>(input, i as nat) == Ok::<(Seq<T::Model>, Seq<u8>), ReaderError>(
                    (inner_models(txs@), reader.remaining()),
                ),
            decreases count - i,
        {
            let ghost before = inner_models(txs@);
            match T::read(reader) {
                Ok(tx) => {
                    txs.push(Immutable::Owned(tx));
                    proof {
                        assert(inner_models(txs@) =~= before.push(tx.model()));
                    }
                },
                Err(e) => {
                    proof {
                        lemma_decode_many_fails::<T>(input, (i + 1) as nat, count as nat);
                    }
                    return Err(e);
                },
            }
            i += 1;
        }
        Ok(Block::new(Immutable::Owned(block), txs))
    }

    proof fn lemma_round_trip(m: BlockModel<T::Model>, rest: Seq<u8>) {
        let tail = encode_many::<T>(m.transactions) + rest;
        lemma_concat_assoc(m.header.encoding(), encode_many::<T>(m.transactions), rest);
        BlockHeader::lemma_round_trip(m.header, tail);
        lemma_many_round_trip::<T>(m.transactions, rest);
    }

    proof fn lemma_decoding_sound(input: Seq<u8>) {
        BlockHeader::lemma_decoding_sound(input);
        if let Ok((header, middle)) = decode_header(input) {
            lemma_decode_many_sound::<T>(middle, header.txs_hashes.len());
            if let Ok((transactions, rest)) = decode_many::<T>(
                middle,
                header.txs_hashes.len(),
            ) {
                lemma_concat_assoc(header.encoding(), encode_many::<T>(transactions), rest);
            }
        }
    }
}

/// Two sequences of `n` bytes that spell the same number are the same.
pub proof fn lemma_be_bytes_injective(x: nat, y: nat, n: nat)
    requires
        x < pow256(n),
        y < pow256(n),
        be_bytes(x, n) == be_bytes(y, n),
    ensures
        x == y,
{
    lemma_be_value_of_bytes(x, n);
    lemma_be_value_of_bytes(y, n);
}

/// Work-hash stability: two headers that agree on version, height, parents
/// and transaction hashes have the same work buffer and the same work hash,
/// whatever their timestamps, nonces, nonce extensions and miners are.
pub proof fn lemma_work_hash_stable(a: HeaderModel, b: HeaderModel)
    requires
        a.version == b.version,
        a.height == b.height,
        a.tips == b.tips,
        a.txs_hashes == b.txs_hashes,
    ensures
        a.work() == b.work(),
        a.work_hash() == b.work_hash(),
{
}

/// Two headers that differ in timestamp, nonce, nonce extension or miner
/// have different proof-of-work inputs. (That their digests differ as well is
/// a property of the digest, which nothing here states.)
pub proof fn lemma_mined_fields_change_pow_input(a: HeaderModel, b: HeaderModel)
    requires
        a.extra_nonce.len() == EXTRA_NONCE_SIZE,
        b.extra_nonce.len() == EXTRA_NONCE_SIZE,
        a.miner.len() == KEY_LENGTH,
        b.miner.len() == KEY_LENGTH,
        a.timestamp != b.timestamp || a.nonce != b.nonce || a.extra_nonce != b.extra_nonce
            || a.miner != b.miner,
    ensures
        a.serialized() != b.serialized(),
{
    lemma_pow256_widths();
    lemma_be_bytes_len(a.timestamp as nat, 16);
    lemma_be_bytes_len(b.timestamp as nat, 16);
    lemma_be_bytes_len(a.nonce as nat, 8);
    lemma_be_bytes_len(b.nonce as nat, 8);
    if a.serialized() == b.serialized() {
        let sa = a.serialized();
        let sb = b.serialized();
        let n = sa.len() as int;
        assert(a.miner =~= sa.subrange(n - 32, n));
        assert(b.miner =~= sb.subrange(n - 32, n));
        assert(a.extra_nonce =~= sa.subrange(n - 64, n - 32));
        assert(b.extra_nonce =~= sb.subrange(n - 64, n - 32));
        assert(be_bytes(a.nonce as nat, 8) =~= sa.subrange(n - 72, n - 64));
        assert(be_bytes(b.nonce as nat, 8) =~= sb.subrange(n - 72, n - 64));
        assert(be_bytes(a.timestamp as nat, 16) =~= sa.subrange(n - 88, n - 72));
        assert(be_bytes(b.timestamp as nat, 16) =~= sb.subrange(n - 88, n - 72));
        lemma_be_bytes_injective(a.nonce as nat, b.nonce as nat, 8);
        lemma_be_bytes_injective(a.timestamp as nat, b.timestamp as nat, 16);
    }
}

/// Two lists of 32-byte hashes that differ have different concatenations:
/// changing the parents or the transaction hashes of a header changes the
/// bytes that its commitment is the digest of.
pub proof fn lemma_hash_lists_change_commitment_input(a: Seq<Seq<u8>>, b: Seq<Seq<u8>>)
    requires
        all_valid::<hash::Hash>(a),
        all_valid::<hash::Hash>(b),
        a != b,
    ensures
        encode_many::<hash::Hash>(a) != encode_many::<hash::Hash>(b),
    decreases a.len(),
{
    lemma_hash_list_len(a);
    lemma_hash_list_len(b);
    let ea = encode_many::<hash::Hash>(a);
    let eb = encode_many::<hash::Hash>(b);
    if ea == eb {
        assert(a.len() == b.len());
        if a.len() == 0 {
            assert(a =~= b);
        } else {
            let n = ea.len() as int;
            lemma_hash_list_len(a.drop_last());
            lemma_hash_list_len(b.drop_last());
            assert(a.last() =~= ea.subrange(n - 32, n));
            assert(b.last() =~= eb.subrange(n - 32, n));
            assert(encode_many::<hash::Hash>(a.drop_last()) =~= ea.subrange(0, n - 32));
            assert(encode_many::<hash::Hash>(b.drop_last()) =~= eb.subrange(0, n - 32));
            assert(all_valid::<hash::Hash>(a.drop_last()));
            assert(all_valid::<hash::Hash>(b.drop_last()));
            if a.drop_last() != b.drop_last() {
                lemma_hash_lists_change_commitment_input(a.drop_last(), b.drop_last());
            }
            assert(a =~= a.drop_last().push(a.last()));
            assert(b =~= b.drop_last().push(b.last()));
        }
    }
}

/// The concatenation of `n` hashes of 32 bytes has `32 * n` bytes.
pub proof fn lemma_hash_list_len(hashes: Seq<Seq<u8>>)
    requires
        all_valid::<hash::Hash>(hashes),
    ensures
        encode_many::<hash::Hash>(hashes).len() == HASH_SIZE * hashes.len(),
    decreases hashes.len(),
{
    if hashes.len() > 0 {
        assert(all_valid::<hash::Hash>(hashes.drop_last()));
        lemma_hash_list_len(hashes.drop_last());
        assert(hash::Hash::valid(hashes[hashes.len() - 1]));
    }
}

} // verus!
