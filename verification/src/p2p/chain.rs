//! Chain-synchronization messages: checkpoints, the request that carries
//! them, and the response that names the common point, the blocks that the
//! requester lacks and the tips of the responder.

use indexmap::IndexSet;
use vstd::prelude::*;
use crate::config::{
    CHAIN_SYNC_REQUEST_MAX_BLOCKS,
    CHAIN_SYNC_RESPONSE_MAX_BLOCKS,
    CHAIN_SYNC_RESPONSE_MIN_BLOCKS,
    CHAIN_SYNC_TOP_BLOCKS_MAX,
};
use crate::crypto::hash;
use crate::crypto::hash::HASH_SIZE;
use crate::p2p::hash_set;
use crate::p2p::hash_set::set_items;
use crate::serializer::bytes::{be_bytes, lemma_pow256_widths};
use crate::serializer::codec::Serializer;
use crate::serializer::error::ReaderError;
use crate::serializer::reader::{take_bytes, take_uint, Reader};
use crate::serializer::sequence::{
    all_valid,
    decode_many,
    encode_many,
    lemma_concat_assoc,
    lemma_decode_many_len,
    lemma_decode_many_sound,
    lemma_encode_many_push,
    lemma_many_round_trip,
    lemma_take_bytes_concat,
    lemma_take_uint_concat,
    lemma_take_bytes_sound,
    lemma_take_uint_sound,
    models,
    read_many,
    write_many,
};
use crate::serializer::writer::Writer;

verus! {

/// The mathematical value of a checkpoint: a hash at a height.
pub struct PointModel {
    pub hash: Seq<u8>,
    pub topoheight: u64,
}

/// A checkpoint: the hash of a block and its height in the topological order.
#[derive(Clone, Debug)]
pub struct BlockId {
    hash: hash::Hash,
    topoheight: u64,
}

impl View for BlockId {
    type V = PointModel;

    closed spec fn view(&self) -> PointModel {
        PointModel { hash: self.hash@, topoheight: self.topoheight }
    }
}

impl BlockId {
    /// The hash of a checkpoint has 32 bytes.
    pub proof fn lemma_valid(self)
        ensures
            self@.valid(),
    {
        self.hash.lemma_len();
    }

    pub fn new(hash: hash::Hash, topoheight: u64) -> (r: BlockId)
        ensures
            r@ == (PointModel { hash: hash@, topoheight }),
    {
        BlockId { hash, topoheight }
    }

    pub fn get_hash(&self) -> (r: &hash::Hash)
        ensures
            r@ == self@.hash,
    {
        &self.hash
    }

    pub fn get_topoheight(&self) -> (r: u64)
        ensures
            r == self@.topoheight,
    {
        self.topoheight
    }

    /// The hash and the height, giving up the checkpoint.
    pub fn consume(self) -> (r: (hash::Hash, u64))
        ensures
            r.0@ == self@.hash,
            r.1 == self@.topoheight,
    {
        (self.hash, self.topoheight)
    }
}

impl PointModel {
    /// A checkpoint is encoded as its hash, then its height in eight bytes.
    pub open spec fn encoding(self) -> Seq<u8> {
        self.hash + be_bytes(self.topoheight as nat, 8)
    }

    /// The checkpoints that the encoding represents faithfully.
    pub open spec fn valid(self) -> bool {
        self.hash.len() == HASH_SIZE
    }
}

/// The checkpoint at the head of `input`, and the bytes after it.
pub open spec fn decode_point(input: Seq<u8>) -> Result<(PointModel, Seq<u8>), ReaderError> {
    match take_bytes(input, HASH_SIZE as nat) {
        Err(e) => Err(e),
        Ok((hash, rest)) => match take_uint(rest, 8) {
            Err(e) => Err(e),
            Ok((topoheight, rest)) => Ok(
                (PointModel { hash, topoheight: topoheight as u64 }, rest),
            ),
        },
    }
}

/// Decoding the encoding of a valid checkpoint gives it back.
pub proof fn lemma_point_round_trip(m: PointModel, rest: Seq<u8>)
    requires
        m.valid(),
    ensures
        decode_point(m.encoding() + rest) == Ok::<(PointModel, Seq<u8>), ReaderError>((m, rest)),
{
    lemma_pow256_widths();
    let tail = be_bytes(m.topoheight as nat, 8) + rest;
    assert(m.encoding() + rest =~= m.hash + tail);
    lemma_take_bytes_concat(m.hash, tail);
    lemma_take_uint_concat(m.topoheight as nat, 8, rest);
}

/// A checkpoint that decodes is valid, and the input is its encoding and the
/// rest.
pub proof fn lemma_point_sound(input: Seq<u8>)
    ensures
        decode_point(input) matches Ok((m, rest)) ==> m.valid() && input == m.encoding() + rest,
{
    lemma_pow256_widths();
    lemma_take_bytes_sound(input, HASH_SIZE as nat);
    if let Ok((hash, middle)) = take_bytes(input, HASH_SIZE as nat) {
        lemma_take_uint_sound(middle, 8);
        if let Ok((topoheight, rest)) = take_uint(middle, 8) {
            assert(input =~= hash + be_bytes(topoheight, 8) + rest);
        }
    }
}

impl Serializer for BlockId {
    type Model = PointModel;

    open spec fn model(&self) -> PointModel {
        self@
    }

    open spec fn valid(m: PointModel) -> bool {
        m.valid()
    }

    open spec fn encoding(m: PointModel) -> Seq<u8> {
        m.encoding()
    }

    open spec fn decoding(input: Seq<u8>) -> Result<(PointModel, Seq<u8>), ReaderError> {
        decode_point(input)
    }

    fn write(&self, writer: &mut Writer) {
        writer.write_hash(&self.hash);
        writer.write_u64(&self.topoheight);
        assert(writer@ =~= old(writer)@ + self@.encoding());
    }

    fn read(reader: &mut Reader<'_>) -> (r: Result<Self, ReaderError>) {
        let hash = reader.read_hash()?;
        let topoheight = reader.read_u64()?;
        Ok(BlockId::new(hash, topoheight))
    }

    proof fn lemma_round_trip(m: PointModel, rest: Seq<u8>) {
        lemma_point_round_trip(m, rest);
    }

    proof fn lemma_decoding_sound(input: Seq<u8>) {
        lemma_point_sound(input);
    }
}

/// A chain request: the checkpoints of the requester, most recent first, and
/// the largest response that it accepts.
#[derive(Clone, Debug)]
pub struct ChainRequest {
    blocks: Vec<BlockId>,
    accepted_response_size: u16,
}

/// The mathematical value of a chain request.
pub struct RequestModel {
    pub blocks: Seq<PointModel>,
    pub accepted_response_size: u16,
}

impl RequestModel {
    /// The count of checkpoints in one byte, the checkpoints, and the
    /// accepted response size in two bytes.
    pub open spec fn encoding(self) -> Seq<u8> {
        seq![(self.blocks.len() % 256) as u8] + encode_many::<BlockId>(self.blocks) + be_bytes(
            self.accepted_response_size as nat,
            2,
        )
    }

    /// Whether the request keeps the bounds of the protocol: at least one
    /// checkpoint and no more than the cap, and a response size within the
    /// least and the most that a response may hold.
    pub open spec fn in_bounds(self) -> bool {
        &&& 1 <= self.blocks.len() <= CHAIN_SYNC_REQUEST_MAX_BLOCKS
        &&& CHAIN_SYNC_RESPONSE_MIN_BLOCKS <= self.accepted_response_size
            <= CHAIN_SYNC_RESPONSE_MAX_BLOCKS
    }

    /// The requests that the encoding represents faithfully.
    pub open spec fn valid(self) -> bool {
        &&& self.in_bounds()
        &&& all_valid::<BlockId>(self.blocks)
    }
}

/// The chain request at the head of `input`. A count of zero or above the
/// cap, and a response size outside its bounds, are refused as invalid
/// values; nothing is clamped.
pub open spec fn decode_request(input: Seq<u8>) -> Result<(RequestModel, Seq<u8>), ReaderError> {
    match take_uint(input, 1) {
        Err(e) => Err(e),
        Ok((len, rest)) => if len == 0 || len > CHAIN_SYNC_REQUEST_MAX_BLOCKS {
            Err(ReaderError::InvalidValue)
        } else {
            match decode_many::<BlockId>(rest, len) {
                Err(e) => Err(e),
                Ok((blocks, rest)) => match take_uint(rest, 2) {
                    Err(e) => Err(e),
                    Ok((size, rest)) => if size < CHAIN_SYNC_RESPONSE_MIN_BLOCKS || size
                        > CHAIN_SYNC_RESPONSE_MAX_BLOCKS {
                        Err(ReaderError::InvalidValue)
                    } else {
                        Ok((RequestModel { blocks, accepted_response_size: size as u16 }, rest))
                    },
                },
            }
        },
    }
}

impl View for ChainRequest {
    type V = RequestModel;

    closed spec fn view(&self) -> RequestModel {
        RequestModel {
            blocks: models(self.blocks@),
            accepted_response_size: self.accepted_response_size,
        }
    }
}

impl ChainRequest {
    /// A request of the checkpoints and the size given. The bounds of the
    /// protocol are checked when a request is decoded, not here.
    pub fn new(blocks: Vec<BlockId>, accepted_response_size: u16) -> (r: ChainRequest)
        ensures
            r@ == (RequestModel { blocks: models(blocks@), accepted_response_size }),
    {
        ChainRequest { blocks, accepted_response_size }
    }

    /// The number of checkpoints.
    pub fn size(&self) -> (r: usize)
        ensures
            r == self@.blocks.len(),
    {
        self.blocks.len()
    }

    /// The checkpoints, giving up the request.
    pub fn get_blocks(self) -> (r: Vec<BlockId>)
        ensures
            models(r@) == self@.blocks,
    {
        self.blocks
    }

    pub fn get_accepted_response_size(&self) -> (r: u16)
        ensures
            r == self@.accepted_response_size,
    {
        self.accepted_response_size
    }
}

impl Serializer for ChainRequest {
    type Model = RequestModel;

    open spec fn model(&self) -> RequestModel {
        self@
    }

    open spec fn valid(m: RequestModel) -> bool {
        m.valid()
    }

    open spec fn encoding(m: RequestModel) -> Seq<u8> {
        m.encoding()
    }

    open spec fn decoding(input: Seq<u8>) -> Result<(RequestModel, Seq<u8>), ReaderError> {
        decode_request(input)
    }

    fn write(&self, writer: &mut Writer) {
        writer.write_u8((self.blocks.len() % 256) as u8);
        write_many(&self.blocks, writer);
        writer.write_u16(self.accepted_response_size);
        assert(writer@ =~= old(writer)@ + self@.encoding());
    }

    fn read(reader: &mut Reader<'_>) -> (r: Result<Self, ReaderError>) {
        let len = reader.read_u8()?;
        if len == 0 || len as usize > CHAIN_SYNC_REQUEST_MAX_BLOCKS {
            return Err(ReaderError::InvalidValue);
        }
        let blocks = read_many::<BlockId>(reader, len as usize)?;
        let accepted_response_size = reader.read_u16()?;
        if (accepted_response_size as usize) < CHAIN_SYNC_RESPONSE_MIN_BLOCKS
            || accepted_response_size as usize > CHAIN_SYNC_RESPONSE_MAX_BLOCKS {
            return Err(ReaderError::InvalidValue);
        }
        Ok(ChainRequest { blocks, accepted_response_size })
    }

    proof fn lemma_round_trip(m: RequestModel, rest: Seq<u8>) {
        lemma_request_encoded(m, rest);
    }

    proof fn lemma_decoding_sound(input: Seq<u8>) {
        lemma_pow256_widths();
        lemma_take_uint_sound(input, 1);
        if let Ok((len, r1)) = take_uint(input, 1) {
            lemma_decode_many_sound::<BlockId>(r1, len);
            if let Ok((blocks, r2)) = decode_many::<BlockId>(r1, len) {
                lemma_take_uint_sound(r2, 2);
                if let Ok((size, rest)) = take_uint(r2, 2) {
                    assert(be_bytes(len, 1) =~= seq![(blocks.len() % 256) as u8]) by {
                        reveal_with_fuel(be_bytes, 2);
                    }
                    assert(input =~= seq![(blocks.len() % 256) as u8] + encode_many::<BlockId>(
                        blocks,
                    ) + be_bytes(size, 2) + rest);
                }
            }
        }
    }
}

/// What decoding makes of the encoding of a request with at most 255 valid
/// checkpoints: the request itself if it keeps the bounds of the protocol,
/// and an invalid value if it does not. So a request without checkpoints, one
/// with more than the cap, and one whose accepted response size is below the
/// least or above the most, all fail to decode.
pub proof fn lemma_request_encoded(m: RequestModel, rest: Seq<u8>)
    requires
        m.blocks.len() <= 255,
        all_valid::<BlockId>(m.blocks),
    ensures
        decode_request(m.encoding() + rest) == if m.in_bounds() {
            Ok::<(RequestModel, Seq<u8>), ReaderError>((m, rest))
        } else {
            Err::<(RequestModel, Seq<u8>), ReaderError>(ReaderError::InvalidValue)
        },
{
    lemma_pow256_widths();
    let r2 = be_bytes(m.accepted_response_size as nat, 2) + rest;
    let r1 = encode_many::<BlockId>(m.blocks) + r2;
    let r0 = be_bytes(m.blocks.len(), 1) + r1;
    assert(be_bytes(m.blocks.len(), 1) =~= seq![(m.blocks.len() % 256) as u8]) by {
        reveal_with_fuel(be_bytes, 2);
    }
    assert(m.encoding() + rest =~= r0);
    lemma_take_uint_concat(m.blocks.len(), 1, r1);
    lemma_many_round_trip::<BlockId>(m.blocks, r2);
    lemma_take_uint_concat(m.accepted_response_size as nat, 2, rest);
}

/// Every request that decodes keeps the bounds of the protocol.
pub proof fn lemma_request_decoded_in_bounds(input: Seq<u8>)
    ensures
        decode_request(input) matches Ok((m, _)) ==> m.in_bounds(),
{
    if let Ok((len, rest)) = take_uint(input, 1) {
        lemma_decode_many_len::<BlockId>(rest, len);
    }
}

/// The point that both peers agree on: a checkpoint of the request that the
/// responder holds at the same height.
#[derive(Debug)]
pub struct CommonPoint {
    hash: hash::Hash,
    topoheight: u64,
}

impl View for CommonPoint {
    type V = PointModel;

    closed spec fn view(&self) -> PointModel {
        PointModel { hash: self.hash@, topoheight: self.topoheight }
    }
}

impl CommonPoint {
    /// The hash of a common point has 32 bytes.
    pub proof fn lemma_valid(self)
        ensures
            self@.valid(),
    {
        self.hash.lemma_len();
    }

    pub fn new(hash: hash::Hash, topoheight: u64) -> (r: CommonPoint)
        ensures
            r@ == (PointModel { hash: hash@, topoheight }),
    {
        CommonPoint { hash, topoheight }
    }

    pub fn get_hash(&self) -> (r: &hash::Hash)
        ensures
            r@ == self@.hash,
    {
        &self.hash
    }

    pub fn get_topoheight(&self) -> (r: u64)
        ensures
            r == self@.topoheight,
    {
        self.topoheight
    }
}

impl Serializer for CommonPoint {
    type Model = PointModel;

    open spec fn model(&self) -> PointModel {
        self@
    }

    open spec fn valid(m: PointModel) -> bool {
        m.valid()
    }

    open spec fn encoding(m: PointModel) -> Seq<u8> {
        m.encoding()
    }

    open spec fn decoding(input: Seq<u8>) -> Result<(PointModel, Seq<u8>), ReaderError> {
        decode_point(input)
    }

    fn write(&self, writer: &mut Writer) {
        writer.write_hash(&self.hash);
        writer.write_u64(&self.topoheight);
        assert(writer@ =~= old(writer)@ + self@.encoding());
    }

    fn read(reader: &mut Reader<'_>) -> (r: Result<Self, ReaderError>) {
        let hash = reader.read_hash()?;
        let topoheight = reader.read_u64()?;
        Ok(CommonPoint { hash, topoheight })
    }

    proof fn lemma_round_trip(m: PointModel, rest: Seq<u8>) {
        lemma_point_round_trip(m, rest);
    }

    proof fn lemma_decoding_sound(input: Seq<u8>) {
        lemma_point_sound(input);
    }
}

/// Whether no hash of `items` occurs in `others`.
pub open spec fn disjoint(items: Seq<Seq<u8>>, others: Seq<Seq<u8>>) -> bool {
    forall|i: int| 0 <= i < items.len() ==> !others.contains(#[trigger] items[i])
}

/// The first `count` hashes at the head of `input`, each of which must differ
/// from those before it and from all of `others`. A hash that repeats gives
/// an invalid value.
pub open spec fn decode_distinct(input: Seq<u8>, count: nat, others: Seq<Seq<u8>>) -> Result<
    (Seq<Seq<u8>>, Seq<u8>),
    ReaderError,
>
    decreases count,
{
    if count == 0 {
        Ok((Seq::empty(), input))
    } else {
        match decode_distinct(input, (count - 1) as nat, others) {
            Err(e) => Err(e),
            Ok((init, rest)) => match take_bytes(rest, HASH_SIZE as nat) {
                Err(e) => Err(e),
                Ok((last, rest)) => if others.contains(last) || init.contains(last) {
                    Err(ReaderError::InvalidValue)
                } else {
                    Ok((init.push(last), rest))
                },
            },
        }
    }
}

/// A run that fails after `i` hashes fails the same way however many are
/// asked for beyond that.
pub proof fn lemma_decode_distinct_fails(
    input: Seq<u8>,
    i: nat,
    count: nat,
    others: Seq<Seq<u8>>,
)
    requires
        i <= count,
        decode_distinct(input, i, others) is Err,
    ensures
        decode_distinct(input, count, others) == decode_distinct(input, i, others),
    decreases count,
{
    if i < count {
        lemma_decode_distinct_fails(input, i, (count - 1) as nat, others);
    }
}

/// The hashes that `decode_distinct` gives are `count` hashes of 32 bytes,
/// no two the same, none in `others`.
pub proof fn lemma_decode_distinct_sound(input: Seq<u8>, count: nat, others: Seq<Seq<u8>>)
    ensures
        decode_distinct(input, count, others) matches Ok((items, rest)) ==> {
            &&& items.len() == count
            &&& all_valid::<hash::Hash>(items)
            &&& items.no_duplicates()
            &&& disjoint(items, others)
            &&& input == encode_many::<hash::Hash>(items) + rest
        },
    decreases count,
{
    if count == 0 {
        assert(input =~= encode_many::<hash::Hash>(Seq::empty()) + input);
    } else {
        lemma_decode_distinct_sound(input, (count - 1) as nat, others);
        if let Ok((init, middle)) = decode_distinct(input, (count - 1) as nat, others) {
            if let Ok((last, rest)) = take_bytes(middle, HASH_SIZE as nat) {
                lemma_encode_many_push::<hash::Hash>(init, last);
                assert(middle =~= last + rest);
                assert(input =~= encode_many::<hash::Hash>(init.push(last)) + rest);
            }
        }
    }
}

/// What `decode_distinct` makes of the concatenation of hashes of 32 bytes:
/// the hashes themselves if no two are the same and none is in `others`, and
/// an invalid value otherwise.
pub proof fn lemma_distinct_encoded(items: Seq<Seq<u8>>, others: Seq<Seq<u8>>, rest: Seq<u8>)
    requires
        all_valid::<hash::Hash>(items),
    ensures
        decode_distinct(encode_many::<hash::Hash>(items) + rest, items.len(), others) == if items.no_duplicates()
            && disjoint(items, others) {
            Ok::<(Seq<Seq<u8>>, Seq<u8>), ReaderError>((items, rest))
        } else {
            Err::<(Seq<Seq<u8>>, Seq<u8>), ReaderError>(ReaderError::InvalidValue)
        },
    decreases items.len(),
{
    let input = encode_many::<hash::Hash>(items) + rest;
    if items.len() == 0 {
        assert(input =~= rest);
        assert(items =~= Seq::<Seq<u8>>::empty());
    } else {
        let init = items.drop_last();
        let last = items.last();
        let tail = last + rest;
        assert(all_valid::<hash::Hash>(init)) by {
            assert forall|i: int| 0 <= i < init.len() implies hash::Hash::valid(
                #[trigger] init[i],
            ) by {
                assert(init[i] == items[i]);
            }
        }
        assert(hash::Hash::valid(items[items.len() - 1]));
        assert(input =~= encode_many::<hash::Hash>(init) + tail);
        lemma_distinct_encoded(init, others, tail);
        lemma_take_bytes_concat(last, rest);
        assert(items =~= init.push(last));
        if init.no_duplicates() && disjoint(init, others) {
            if others.contains(last) || init.contains(last) {
                if init.contains(last) {
                    let j = choose|j: int| 0 <= j < init.len() && init[j] == last;
                    assert(items[j] == items[items.len() - 1]);
                    assert(!items.no_duplicates());
                } else {
                    assert(others.contains(items[items.len() - 1]));
                    assert(!disjoint(items, others));
                }
            } else {
                assert(items.no_duplicates()) by {
                    assert forall|i: int, j: int|
                        0 <= i < items.len() && 0 <= j < items.len() && i != j implies items[i]
                        != items[j] by {
                        if i < init.len() && j < init.len() {
                            assert(init[i] != init[j]);
                        } else if i < init.len() {
                            assert(init.contains(init[i]));
                        } else {
                            assert(init.contains(init[j]));
                        }
                    }
                }
                assert(disjoint(items, others)) by {
                    assert forall|i: int| 0 <= i < items.len() implies !others.contains(
                        #[trigger] items[i],
                    ) by {
                        if i < init.len() {
                            assert(items[i] == init[i]);
                        }
                    }
                }
            }
        } else {
            if !init.no_duplicates() {
                let (i, j) = choose|i: int, j: int|
                    0 <= i < init.len() && 0 <= j < init.len() && i != j && init[i] == init[j];
                assert(items[i] == items[j]);
                assert(!items.no_duplicates());
            } else {
                let i = choose|i: int| 0 <= i < init.len() && others.contains(#[trigger] init[i]);
                assert(others.contains(items[i]));
                assert(!disjoint(items, others));
            }
        }
    }
}

/// A chain response: the common point if one was found, the hashes of the
/// blocks that the requester lacks, and the tips of the responder. No hash
/// occurs twice, within either set or across them.
#[derive(Debug)]
pub struct ChainResponse {
    common_point: Option<CommonPoint>,
    blocks: IndexSet<[u8; 32]>,
    top_blocks: IndexSet<[u8; 32]>,
}

/// The mathematical value of a chain response.
pub struct ResponseModel {
    pub common_point: Option<PointModel>,
    pub blocks: Seq<Seq<u8>>,
    pub top_blocks: Seq<Seq<u8>>,
}

impl ResponseModel {
    /// The common point as an optional value, the count of blocks in two
    /// bytes and their hashes, the count of top blocks in one byte and their
    /// hashes.
    pub open spec fn encoding(self) -> Seq<u8> {
        Option::<CommonPoint>::encoding(self.common_point) + be_bytes(
            self.blocks.len() % 65536,
            2,
        ) + encode_many::<hash::Hash>(self.blocks) + seq![(self.top_blocks.len() % 256) as u8]
            + encode_many::<hash::Hash>(self.top_blocks)
    }

    /// Whether every part has the shape that the wire can carry: hashes of 32
    /// bytes, and counts that fit their width.
    pub open spec fn well_shaped(self) -> bool {
        &&& Option::<CommonPoint>::valid(self.common_point)
        &&& self.blocks.len() <= 65535
        &&& all_valid::<hash::Hash>(self.blocks)
        &&& self.top_blocks.len() <= 255
        &&& all_valid::<hash::Hash>(self.top_blocks)
    }

    /// Whether the response keeps the rules of the protocol: neither set is
    /// larger than its cap, and no hash occurs twice, within a set or in
    /// both.
    pub open spec fn in_bounds(self) -> bool {
        &&& self.blocks.len() <= CHAIN_SYNC_RESPONSE_MAX_BLOCKS
        &&& self.blocks.no_duplicates()
        &&& self.top_blocks.len() <= CHAIN_SYNC_TOP_BLOCKS_MAX
        &&& self.top_blocks.no_duplicates()
        &&& disjoint(self.top_blocks, self.blocks)
    }

    /// The responses that the encoding represents faithfully.
    pub open spec fn valid(self) -> bool {
        self.well_shaped() && self.in_bounds()
    }
}

/// The chain response at the head of `input`. The blocks are read first, the
/// top blocks after them; a count above its cap and a hash that repeats are
/// refused as invalid values.
pub open spec fn decode_response(input: Seq<u8>) -> Result<(ResponseModel, Seq<u8>), ReaderError> {
    match Option::<CommonPoint>::decoding(input) {
        Err(e) => Err(e),
        Ok((common_point, rest)) => match decode_blocks(rest) {
            Err(e) => Err(e),
            Ok((blocks, rest)) => match decode_top_blocks(rest, blocks) {
                Err(e) => Err(e),
                Ok((top_blocks, rest)) => Ok(
                    (ResponseModel { common_point, blocks, top_blocks }, rest),
                ),
            },
        },
    }
}

/// The counted set of blocks at the head of `input`.
pub open spec fn decode_blocks(input: Seq<u8>) -> Result<(Seq<Seq<u8>>, Seq<u8>), ReaderError> {
    match take_uint(input, 2) {
        Err(e) => Err(e),
        Ok((len, rest)) => if len > CHAIN_SYNC_RESPONSE_MAX_BLOCKS {
            Err(ReaderError::InvalidValue)
        } else {
            decode_distinct(rest, len, Seq::empty())
        },
    }
}

/// The counted set of top blocks at the head of `input`, none of which may
/// be one of `blocks`.
pub open spec fn decode_top_blocks(input: Seq<u8>, blocks: Seq<Seq<u8>>) -> Result<
    (Seq<Seq<u8>>, Seq<u8>),
    ReaderError,
> {
    match take_uint(input, 1) {
        Err(e) => Err(e),
        Ok((len, rest)) => if len > CHAIN_SYNC_TOP_BLOCKS_MAX {
            Err(ReaderError::InvalidValue)
        } else {
            decode_distinct(rest, len, blocks)
        },
    }
}

impl View for ChainResponse {
    type V = ResponseModel;

    closed spec fn view(&self) -> ResponseModel {
        ResponseModel {
            common_point: self.common_point.model(),
            blocks: set_items(self.blocks),
            top_blocks: set_items(self.top_blocks),
        }
    }
}

/// Appends the hashes of `set` to `writer`, in the order of the set.
fn write_set(set: &IndexSet<[u8; 32]>, writer: &mut Writer)
    ensures
        final(writer)@ == old(writer)@ + encode_many::<hash::Hash>(set_items(*set)),
        all_valid::<hash::Hash>(set_items(*set)),
{
    let n = hash_set::len(set);
    let ghost items = set_items(*set);
    let mut i: usize = 0;
    assert(items.take(0) =~= Seq::<Seq<u8>>::empty());
    while i < n
        invariant
            i <= n,
            n == items.len(),
            items == set_items(*set),
            writer@ == old(writer)@ + encode_many::<hash::Hash>(items.take(i as int)),
            forall|j: int| 0 <= j < i ==> (#[trigger] items[j]).len() == HASH_SIZE,
        decreases n - i,
    {
        match hash_set::get_index(set, i) {
            Some(item) => {
                writer.write_bytes(item.as_slice());
                proof {
                    let done = items.take(i as int);
                    assert(items.take(i + 1) =~= done.push(items[i as int]));
                    lemma_encode_many_push::<hash::Hash>(done, items[i as int]);
                    assert(writer@ =~= old(writer)@ + encode_many::<hash::Hash>(
                        items.take(i + 1),
                    ));
                }
            },
            None => {},
        }
        i += 1;
    }
    assert(items.take(n as int) =~= items);
}

/// Reads `count` hashes into a new set. A hash that the set already holds, or
/// that `others` holds, stops the decode with an invalid value.
fn read_set(reader: &mut Reader<'_>, count: usize, others: Option<&IndexSet<[u8; 32]>>) -> (r:
    Result<IndexSet<[u8; 32]>, ReaderError>)
    ensures
        old(reader).leads_to(*final(reader)),
        match decode_distinct(old(reader).remaining(), count as nat, other_items(others)) {
            Ok((items, rest)) => {
                &&& r matches Ok(set)
                &&& set_items(set) == items
                &&& final(reader).remaining() == rest
            },
            Err(e) => r matches Err(f) && f == e,
        },
{
    let mut set = hash_set::with_capacity(count);
    let ghost input = reader.remaining();
    proof {
        use_type_invariant(&*reader);
        reader.lemma_within_buffer();
    }
    let ghost known = other_items(others);
    let mut i: usize = 0;
    while i < count
        invariant
            i <= count,
            old(reader).leads_to(*reader),
            input == old(reader).remaining(),
            known == other_items(others),
            decode_distinct(input, i as nat, known) == Ok::<
                (Seq<Seq<u8>>, Seq<u8>),
                ReaderError,
            >((set_items(set), reader.remaining())),
        decreases count - i,
    {
        let hash = match reader.read_hash() {
            Ok(hash) => hash,
            Err(e) => {
                proof {
                    lemma_decode_distinct_fails(input, (i + 1) as nat, count as nat, known);
                }
                return Err(e);
            },
        };
        let bytes = *hash.as_bytes();
        let taken = match others {
            Some(other) => hash_set::contains(other, &bytes),
            None => false,
        };
        if taken || !hash_set::insert(&mut set, bytes) {
            proof {
                lemma_decode_distinct_fails(input, (i + 1) as nat, count as nat, known);
            }
            return Err(ReaderError::InvalidValue);
        }
        i += 1;
    }
    Ok(set)
}

/// The hashes that a set to keep clear of holds; none where there is no such
/// set.
pub open spec fn other_items(others: Option<&IndexSet<[u8; 32]>>) -> Seq<Seq<u8>> {
    match others {
        Some(set) => set_items(*set),
        None => Seq::empty(),
    }
}

impl ChainResponse {
    /// A response of the parts given. The rules of the protocol are checked
    /// when a response is decoded, not here.
    pub fn new(
        common_point: Option<CommonPoint>,
        blocks: IndexSet<[u8; 32]>,
        top_blocks: IndexSet<[u8; 32]>,
    ) -> (r: ChainResponse)
        ensures
            r@ == (ResponseModel {
                common_point: common_point.model(),
                blocks: set_items(blocks),
                top_blocks: set_items(top_blocks),
            }),
    {
        ChainResponse { common_point, blocks, top_blocks }
    }

    /// Takes the common point out of the response, which has none after.
    pub fn get_common_point(&mut self) -> (r: Option<CommonPoint>)
        ensures
            r.model() == old(self)@.common_point,
            final(self)@ == (ResponseModel { common_point: None, ..old(self)@ }),
    {
        self.common_point.take()
    }

    /// The number of blocks, not counting the top blocks.
    pub fn size(&self) -> (r: usize)
        ensures
            r == self@.blocks.len(),
    {
        hash_set::len(&self.blocks)
    }

    /// The blocks and the top blocks, giving up the response.
    pub fn consume(self) -> (r: (IndexSet<[u8; 32]>, IndexSet<[u8; 32]>))
        ensures
            set_items(r.0) == self@.blocks,
            set_items(r.1) == self@.top_blocks,
    {
        (self.blocks, self.top_blocks)
    }
}

impl Serializer for ChainResponse {
    type Model = ResponseModel;

    open spec fn model(&self) -> ResponseModel {
        self@
    }

    open spec fn valid(m: ResponseModel) -> bool {
        m.valid()
    }

    open spec fn encoding(m: ResponseModel) -> Seq<u8> {
        m.encoding()
    }

    open spec fn decoding(input: Seq<u8>) -> Result<(ResponseModel, Seq<u8>), ReaderError> {
        decode_response(input)
    }

    fn write(&self, writer: &mut Writer) {
        self.common_point.write(writer);
        writer.write_u16((hash_set::len(&self.blocks) % 65536) as u16);
        write_set(&self.blocks, writer);
        writer.write_u8((hash_set::len(&self.top_blocks) % 256) as u8);
        write_set(&self.top_blocks, writer);
        assert(writer@ =~= old(writer)@ + self@.encoding());
    }

    fn read(reader: &mut Reader<'_>) -> (r: Result<Self, ReaderError>) {
        let common_point = Option::<CommonPoint>::read(reader)?;
        let len = reader.read_u16()?;
        if len as usize > CHAIN_SYNC_RESPONSE_MAX_BLOCKS {
            return Err(ReaderError::InvalidValue);
        }
        let blocks = read_set(reader, len as usize, None)?;
        let len = reader.read_u8()?;
        if len as usize > CHAIN_SYNC_TOP_BLOCKS_MAX {
            return Err(ReaderError::InvalidValue);
        }
        let top_blocks = read_set(reader, len as usize, Some(&blocks))?;
        Ok(ChainResponse::new(common_point, blocks, top_blocks))
    }

    proof fn lemma_round_trip(m: ResponseModel, rest: Seq<u8>) {
        lemma_response_encoded(m, rest);
    }

    proof fn lemma_decoding_sound(input: Seq<u8>) {
        Option::<CommonPoint>::lemma_decoding_sound(input);
        if let Ok((common_point, r1)) = Option::<CommonPoint>::decoding(input) {
            lemma_blocks_sound(r1);
            if let Ok((blocks, r3)) = decode_blocks(r1) {
                lemma_top_blocks_sound(r3, blocks);
                if let Ok((top_blocks, rest)) = decode_top_blocks(r3, blocks) {
                    let head = Option::<CommonPoint>::encoding(common_point);
                    let count = be_bytes(blocks.len() % 65536, 2);
                    let list = encode_many::<hash::Hash>(blocks);
                    let top_count = seq![(top_blocks.len() % 256) as u8];
                    let top_list = encode_many::<hash::Hash>(top_blocks);
                    assert(r3 == top_count + top_list + rest);
                    assert(r1 == count + list + r3);
                    assert(input == head + r1);
                    lemma_concat_assoc(top_count, top_list, rest);
                    lemma_concat_assoc(count, list, top_count + (top_list + rest));
                    lemma_concat_assoc(head, count, list + (top_count + (top_list + rest)));
                    lemma_concat_assoc(head + count, list, top_count + (top_list + rest));
                    lemma_concat_assoc(head + count + list, top_count, top_list + rest);
                    lemma_concat_assoc(head + count + list + top_count, top_list, rest);
                }
            }
        }
    }
}

/// The counted set of blocks that decodes is within its cap and without
/// repeats, and the input is its encoding and the rest.
proof fn lemma_blocks_sound(input: Seq<u8>)
    ensures
        decode_blocks(input) matches Ok((blocks, rest)) ==> {
            &&& blocks.len() <= CHAIN_SYNC_RESPONSE_MAX_BLOCKS
            &&& all_valid::<hash::Hash>(blocks)
            &&& blocks.no_duplicates()
            &&& input == be_bytes(blocks.len() % 65536, 2) + encode_many::<hash::Hash>(blocks)
                + rest
        },
{
    lemma_pow256_widths();
    lemma_take_uint_sound(input, 2);
    if let Ok((len, middle)) = take_uint(input, 2) {
        lemma_decode_distinct_sound(middle, len, Seq::empty());
        if let Ok((blocks, rest)) = decode_distinct(middle, len, Seq::empty()) {
            assert(input =~= be_bytes(len, 2) + encode_many::<hash::Hash>(blocks) + rest);
        }
    }
}

/// The counted set of top blocks that decodes is within its cap, without
/// repeats and clear of the blocks, and the input is its encoding and the
/// rest.
proof fn lemma_top_blocks_sound(input: Seq<u8>, blocks: Seq<Seq<u8>>)
    ensures
        decode_top_blocks(input, blocks) matches Ok((top_blocks, rest)) ==> {
            &&& top_blocks.len() <= CHAIN_SYNC_TOP_BLOCKS_MAX
            &&& all_valid::<hash::Hash>(top_blocks)
            &&& top_blocks.no_duplicates()
            &&& disjoint(top_blocks, blocks)
            &&& input == seq![(top_blocks.len() % 256) as u8] + encode_many::<hash::Hash>(
                top_blocks,
            ) + rest
        },
{
    lemma_pow256_widths();
    lemma_take_uint_sound(input, 1);
    if let Ok((len, middle)) = take_uint(input, 1) {
        lemma_decode_distinct_sound(middle, len, blocks);
        if let Ok((top_blocks, rest)) = decode_distinct(middle, len, blocks) {
            assert(be_bytes(len, 1) =~= seq![(top_blocks.len() % 256) as u8]) by {
                reveal_with_fuel(be_bytes, 2);
            }
            assert(input =~= seq![(top_blocks.len() % 256) as u8] + encode_many::<hash::Hash>(
                top_blocks,
            ) + rest);
        }
    }
}

/// What decoding makes of the encoding of a well-shaped response: the
/// response itself if it keeps the rules of the protocol, and an invalid
/// value if it does not. So a response whose blocks repeat a hash, one whose
/// top blocks repeat a hash or hold one of the blocks, and one with more
/// blocks or more top blocks than the cap, all fail to decode.
pub proof fn lemma_response_encoded(m: ResponseModel, rest: Seq<u8>)
    requires
        m.well_shaped(),
    ensures
        decode_response(m.encoding() + rest) == if m.in_bounds() {
            Ok::<(ResponseModel, Seq<u8>), ReaderError>((m, rest))
        } else {
            Err::<(ResponseModel, Seq<u8>), ReaderError>(ReaderError::InvalidValue)
        },
{
    let tail = seq![(m.top_blocks.len() % 256) as u8] + encode_many::<hash::Hash>(m.top_blocks)
        + rest;
    let middle = be_bytes(m.blocks.len() % 65536, 2) + encode_many::<hash::Hash>(m.blocks) + tail;
    assert(m.encoding() + rest =~= Option::<CommonPoint>::encoding(m.common_point) + middle);
    Option::<CommonPoint>::lemma_round_trip(m.common_point, middle);
    lemma_blocks_encoded(m.blocks, tail);
    lemma_top_blocks_encoded(m.top_blocks, m.blocks, rest);
}

/// What decoding makes of the encoding of a counted set of blocks: the set
/// itself if it is within its cap and without repeats, and an invalid value
/// otherwise.
proof fn lemma_blocks_encoded(blocks: Seq<Seq<u8>>, rest: Seq<u8>)
    requires
        blocks.len() <= 65535,
        all_valid::<hash::Hash>(blocks),
    ensures
        decode_blocks(
            be_bytes(blocks.len() % 65536, 2) + encode_many::<hash::Hash>(blocks) + rest,
        ) == if blocks.len() <= CHAIN_SYNC_RESPONSE_MAX_BLOCKS && blocks.no_duplicates() {
            Ok::<(Seq<Seq<u8>>, Seq<u8>), ReaderError>((blocks, rest))
        } else {
            Err::<(Seq<Seq<u8>>, Seq<u8>), ReaderError>(ReaderError::InvalidValue)
        },
{
    lemma_pow256_widths();
    let tail = encode_many::<hash::Hash>(blocks) + rest;
    assert(be_bytes(blocks.len() % 65536, 2) + encode_many::<hash::Hash>(blocks) + rest
        =~= be_bytes(blocks.len(), 2) + tail);
    lemma_take_uint_concat(blocks.len(), 2, tail);
    lemma_distinct_encoded(blocks, Seq::empty(), rest);
    assert(disjoint(blocks, Seq::<Seq<u8>>::empty()));
}

/// What decoding makes of the encoding of a counted set of top blocks: the
/// set itself if it is within its cap, without repeats and clear of the
/// blocks, and an invalid value otherwise.
proof fn lemma_top_blocks_encoded(top_blocks: Seq<Seq<u8>>, blocks: Seq<Seq<u8>>, rest: Seq<u8>)
    requires
        top_blocks.len() <= 255,
        all_valid::<hash::Hash>(top_blocks),
    ensures
        decode_top_blocks(
            seq![(top_blocks.len() % 256) as u8] + encode_many::<hash::Hash>(top_blocks) + rest,
            blocks,
        ) == if top_blocks.len() <= CHAIN_SYNC_TOP_BLOCKS_MAX && top_blocks.no_duplicates()
            && disjoint(top_blocks, blocks) {
            Ok::<(Seq<Seq<u8>>, Seq<u8>), ReaderError>((top_blocks, rest))
        } else {
            Err::<(Seq<Seq<u8>>, Seq<u8>), ReaderError>(ReaderError::InvalidValue)
        },
{
    lemma_pow256_widths();
    let tail = encode_many::<hash::Hash>(top_blocks) + rest;
    assert(be_bytes(top_blocks.len(), 1) =~= seq![(top_blocks.len() % 256) as u8]) by {
        reveal_with_fuel(be_bytes, 2);
    }
    assert(seq![(top_blocks.len() % 256) as u8] + encode_many::<hash::Hash>(top_blocks) + rest
        =~= be_bytes(top_blocks.len(), 1) + tail);
    lemma_take_uint_concat(top_blocks.len(), 1, tail);
    lemma_distinct_encoded(top_blocks, blocks, rest);
}

/// Every response that decodes keeps the rules of the protocol.
pub proof fn lemma_response_decoded_in_bounds(input: Seq<u8>)
    ensures
        decode_response(input) matches Ok((m, _)) ==> m.in_bounds(),
{
    ChainResponse::lemma_decoding_sound(input);
}

} // verus!
