//! Addresses: a public key, the network it is meant for, and optionally a
//! payload carried along with it.

use vstd::prelude::*;
use vstd::utf8::encode_utf8;
use crate::config::{EXTRA_DATA_LIMIT_SIZE, PREFIX_ADDRESS_BYTES, TESTNET_PREFIX_ADDRESS_BYTES};
use crate::crypto::bech32::{
    ascii_chars,
    convert_bits,
    decode,
    decode_text,
    encode,
    encode_text,
    lemma_digits_of_shape,
    lemma_pow2_values,
    lemma_regroup_round_trip,
    lemma_text_round_trip,
    regroup,
    Bech32Error,
};
use crate::crypto::key::PublicKey;
use crate::serializer::bytes::{be_bytes, lemma_pow256_widths};
use crate::serializer::codec::{from_bytes, Serializer};
use crate::serializer::error::ReaderError;
use crate::serializer::reader::{take_bool, take_uint, Reader};
use crate::serializer::sequence::{lemma_take_uint_concat, lemma_take_uint_sound};
use crate::serializer::writer::{bool_byte, Writer};

verus! {

/// What an address is: a plain one, or one that carries a payload.
#[derive(Clone)]
pub enum AddressType<D> {
    /// A public key and nothing else.
    Normal,
    /// A public key with a payload, which goes into a transaction as it is.
    Data(D),
}

/// The mathematical value of an address type.
pub enum AddressTypeModel<M> {
    Normal,
    Data(M),
}

/// An address.
#[derive(Clone)]
pub struct Address<D> {
    mainnet: bool,
    addr_type: AddressType<D>,
    key: PublicKey,
}

/// The mathematical value of an address.
pub struct AddressModel<M> {
    pub mainnet: bool,
    pub addr_type: AddressTypeModel<M>,
    pub key: Seq<u8>,
}

/// An address type is encoded as a tag, `0` for a plain address and `1` for
/// one with a payload, then the payload if there is one. Another tag is
/// refused, and so is a payload whose encoding is longer than
/// `EXTRA_DATA_LIMIT_SIZE`.
impl<D: Serializer> Serializer for AddressType<D> {
    type Model = AddressTypeModel<D::Model>;

    open spec fn model(&self) -> AddressTypeModel<D::Model> {
        match self {
            AddressType::Normal => AddressTypeModel::Normal,
            AddressType::Data(data) => AddressTypeModel::Data(data.model()),
        }
    }

    open spec fn valid(m: AddressTypeModel<D::Model>) -> bool {
        match m {
            AddressTypeModel::Normal => true,
            AddressTypeModel::Data(data) => D::valid(data) && D::encoding(data).len()
                <= EXTRA_DATA_LIMIT_SIZE,
        }
    }

    open spec fn encoding(m: AddressTypeModel<D::Model>) -> Seq<u8> {
        match m {
            AddressTypeModel::Normal => seq![0u8],
            AddressTypeModel::Data(data) => seq![1u8] + D::encoding(data),
        }
    }

    open spec fn decoding(input: Seq<u8>) -> Result<
        (AddressTypeModel<D::Model>, Seq<u8>),
        ReaderError,
    > {
        match take_uint(input, 1) {
            Err(e) => Err(e),
            Ok((tag, rest)) => if tag == 0 {
                Ok((AddressTypeModel::Normal, rest))
            } else if tag == 1 {
                match D::decoding(rest) {
                    Err(e) => Err(e),
                    Ok((data, after)) => if rest.len() - after.len() > EXTRA_DATA_LIMIT_SIZE {
                        Err(ReaderError::InvalidSize)
                    } else {
                        Ok((AddressTypeModel::Data(data), after))
                    },
                }
            } else {
                Err(ReaderError::InvalidValue)
            },
        }
    }

    fn write(&self, writer: &mut Writer) {
        match self {
            AddressType::Normal => {
                writer.write_u8(0);
                assert(writer@ =~= old(writer)@ + seq![0u8]);
            },
            AddressType::Data(data) => {
                writer.write_u8(1);
                data.write(writer);
                assert(writer@ =~= old(writer)@ + (seq![1u8] + D::encoding(data.model())));
            },
        }
    }

    fn read(reader: &mut Reader<'_>) -> (r: Result<Self, ReaderError>) {
        let tag = reader.read_u8()?;
        if tag == 0 {
            Ok(AddressType::Normal)
        } else if tag == 1 {
            let before = reader.total_read();
            let ghost rest = reader.remaining();
            let data = D::read(reader)?;
            let after = reader.total_read();
            if after - before > EXTRA_DATA_LIMIT_SIZE {
                return Err(ReaderError::InvalidSize);
            }
            Ok(AddressType::Data(data))
        } else {
            Err(ReaderError::InvalidValue)
        }
    }

    proof fn lemma_round_trip(m: AddressTypeModel<D::Model>, rest: Seq<u8>) {
        let input = Self::encoding(m) + rest;
        lemma_pow256_widths();
        match m {
            AddressTypeModel::Normal => {
                assert(be_bytes(0, 1) =~= seq![0u8]) by {
                    reveal_with_fuel(be_bytes, 2);
                }
                assert(input =~= be_bytes(0, 1) + rest);
                lemma_take_uint_concat(0, 1, rest);
            },
            AddressTypeModel::Data(data) => {
                let tail = D::encoding(data) + rest;
                assert(be_bytes(1, 1) =~= seq![1u8]) by {
                    reveal_with_fuel(be_bytes, 2);
                }
                assert(input =~= be_bytes(1, 1) + tail);
                lemma_take_uint_concat(1, 1, tail);
                D::lemma_round_trip(data, rest);
            },
        }
    }

    proof fn lemma_decoding_sound(input: Seq<u8>) {
        lemma_pow256_widths();
        lemma_take_uint_sound(input, 1);
        if let Ok((tag, rest)) = take_uint(input, 1) {
            assert(be_bytes(tag, 1) =~= seq![(tag % 256) as u8]) by {
                reveal_with_fuel(be_bytes, 2);
            }
            if tag == 1 {
                D::lemma_decoding_sound(rest);
                if let Ok((data, after)) = D::decoding(rest) {
                    assert(input =~= seq![1u8] + D::encoding(data) + after);
                }
            }
        }
    }
}

impl<D: Serializer> View for Address<D> {
    type V = AddressModel<D::Model>;

    open spec fn view(&self) -> AddressModel<D::Model> {
        AddressModel {
            mainnet: self.parts().0,
            addr_type: self.parts().1.model(),
            key: self.parts().2@,
        }
    }
}

impl<D: Serializer> Address<D> {
    /// The parts of the address as they are held: the network flag, the
    /// type and the key.
    pub closed spec fn parts(self) -> (bool, AddressType<D>, PublicKey) {
        (self.mainnet, self.addr_type, self.key)
    }

    /// The address of `key` on the main network or on the test network.
    pub fn new(mainnet: bool, addr_type: AddressType<D>, key: PublicKey) -> (r: Address<D>)
        ensures
            r.parts() == (mainnet, addr_type, key),
    {
        Address { mainnet, addr_type, key }
    }

    pub fn get_public_key(&self) -> (r: &PublicKey)
        ensures
            *r == self.parts().2,
    {
        &self.key
    }

    /// The public key, giving up the address.
    pub fn to_public_key(self) -> (r: PublicKey)
        ensures
            r == self.parts().2,
    {
        self.key
    }

    pub fn get_type(&self) -> (r: &AddressType<D>)
        ensures
            *r == self.parts().1,
    {
        &self.addr_type
    }

    /// The public key and the type, giving up the address.
    pub fn split(self) -> (r: (PublicKey, AddressType<D>))
        ensures
            r.0 == self.parts().2,
            r.1 == self.parts().1,
    {
        (self.key, self.addr_type)
    }

    /// The payload, if the address carries one, and the plain address of the
    /// same key on the same network.
    pub fn extract_data(self) -> (r: (Option<D>, Address<D>))
        ensures
            r.1.parts().0 == self.parts().0,
            r.1.parts().2 == self.parts().2,
            r.1.parts().1 is Normal,
            match self.parts().1 {
                AddressType::Data(data) => r.0 == Some(data),
                AddressType::Normal => r.0 is None,
            },
    {
        match self.addr_type {
            AddressType::Data(data) => (
                Some(data),
                Address::new(self.mainnet, AddressType::Normal, self.key),
            ),
            AddressType::Normal => (None, self),
        }
    }

    /// Whether the address carries no payload.
    pub fn is_normal(&self) -> (r: bool)
        ensures
            r == (self.parts().1 is Normal),
    {
        match self.addr_type {
            AddressType::Normal => true,
            _ => false,
        }
    }

    /// The payload, if the address carries one. What stands inside a
    /// payload is for its own type to say.
    pub fn get_data(&self) -> (r: Option<&D>)
        ensures
            match self.parts().1 {
                AddressType::Data(data) => r == Some(&data),
                AddressType::Normal => r is None,
            },
    {
        match &self.addr_type {
            AddressType::Normal => None,
            AddressType::Data(data) => Some(data),
        }
    }

    /// Whether the address is meant for the main network.
    pub fn is_mainnet(&self) -> (r: bool)
        ensures
            r == self.parts().0,
    {
        self.mainnet
    }
}

impl PublicKey {
    /// The plain address of this key on the network chosen.
    pub fn to_address<D: Serializer>(&self, mainnet: bool) -> (r: Address<D>)
        ensures
            r.parts() == (mainnet, AddressType::<D>::Normal, *self),
    {
        Address::new(mainnet, AddressType::Normal, *self)
    }

    /// The address of this key on the network chosen, carrying `data`.
    pub fn to_address_with<D: Serializer>(&self, mainnet: bool, data: D) -> (r: Address<D>)
        ensures
            r.parts() == (mainnet, AddressType::Data(data), *self),
    {
        Address::new(mainnet, AddressType::Data(data), *self)
    }
}

/// An address gives up its key.
impl<D: Serializer> From<Address<D>> for PublicKey {
    fn from(address: Address<D>) -> (r: PublicKey) {
        address.to_public_key()
    }
}

impl<D: Serializer> vstd::std_specs::convert::FromSpecImpl<Address<D>> for PublicKey {
    open spec fn obeys_from_spec() -> bool {
        true
    }

    open spec fn from_spec(address: Address<D>) -> PublicKey {
        address.parts().2
    }
}

/// An address gives up its type.
impl<D: Serializer> From<Address<D>> for AddressType<D> {
    fn from(address: Address<D>) -> (r: AddressType<D>) {
        address.split().1
    }
}

impl<D: Serializer> vstd::std_specs::convert::FromSpecImpl<Address<D>> for AddressType<D> {
    open spec fn obeys_from_spec() -> bool {
        true
    }

    open spec fn from_spec(address: Address<D>) -> AddressType<D> {
        address.parts().1
    }
}

/// An address is encoded as the network flag, the type, and the key.
impl<D: Serializer> Serializer for Address<D> {
    type Model = AddressModel<D::Model>;

    open spec fn model(&self) -> AddressModel<D::Model> {
        self@
    }

    open spec fn valid(m: AddressModel<D::Model>) -> bool {
        AddressType::<D>::valid(m.addr_type) && PublicKey::valid(m.key)
    }

    open spec fn encoding(m: AddressModel<D::Model>) -> Seq<u8> {
        seq![bool_byte(m.mainnet)] + AddressType::<D>::encoding(m.addr_type) + m.key
    }

    open spec fn decoding(input: Seq<u8>) -> Result<(AddressModel<D::Model>, Seq<u8>), ReaderError> {
        match take_bool(input) {
            Err(e) => Err(e),
            Ok((mainnet, rest)) => match AddressType::<D>::decoding(rest) {
                Err(e) => Err(e),
                Ok((addr_type, rest)) => match PublicKey::decoding(rest) {
                    Err(e) => Err(e),
                    Ok((key, rest)) => Ok((AddressModel { mainnet, addr_type, key }, rest)),
                },
            },
        }
    }

    fn write(&self, writer: &mut Writer) {
        writer.write_bool(self.mainnet);
        self.addr_type.write(writer);
        self.key.write(writer);
        assert(writer@ =~= old(writer)@ + Self::encoding(self@));
    }

    fn read(reader: &mut Reader<'_>) -> (r: Result<Self, ReaderError>) {
        let mainnet = reader.read_bool()?;
        let addr_type = AddressType::<D>::read(reader)?;
        let key = PublicKey::read(reader)?;
        Ok(Address { mainnet, addr_type, key })
    }

    proof fn lemma_round_trip(m: AddressModel<D::Model>, rest: Seq<u8>) {
        let r2 = m.key + rest;
        let r1 = AddressType::<D>::encoding(m.addr_type) + r2;
        let input = Self::encoding(m) + rest;
        assert(input =~= seq![bool_byte(m.mainnet)] + r1);
        assert(input.skip(1) =~= r1);
        AddressType::<D>::lemma_round_trip(m.addr_type, r2);
        PublicKey::lemma_round_trip(m.key, rest);
    }

    proof fn lemma_decoding_sound(input: Seq<u8>) {
        if let Ok((mainnet, r1)) = take_bool(input) {
            assert(input =~= seq![bool_byte(mainnet)] + r1);
            AddressType::<D>::lemma_decoding_sound(r1);
            if let Ok((addr_type, r2)) = AddressType::<D>::decoding(r1) {
                PublicKey::lemma_decoding_sound(r2);
                if let Ok((key, rest)) = PublicKey::decoding(r2) {
                    assert(input =~= seq![bool_byte(mainnet)] + AddressType::<D>::encoding(
                        addr_type,
                    ) + key + rest);
                }
            }
        }
    }
}

/// Why a text is no address.
#[derive(Clone, Copy, Debug, PartialEq, Eq, Structural)]
pub enum AddressError {
    /// The text is not well formed, or its prefix is not the right one.
    Bech32(Bech32Error),
    /// The bytes that the text stands for are no address.
    Reader(ReaderError),
}

/// The prefix of the addresses of a network.
pub open spec fn prefix_of(mainnet: bool) -> Seq<u8> {
    if mainnet {
        PREFIX_ADDRESS_BYTES@
    } else {
        TESTNET_PREFIX_ADDRESS_BYTES@
    }
}

/// Whether two runs of bytes are the same.
fn same_bytes(a: &[u8], b: &[u8]) -> (r: bool)
    ensures
        r == (a@ == b@),
{
    if a.len() != b.len() {
        return false;
    }
    let n = a.len();
    let mut i: usize = 0;
    while i < n
        invariant
            i <= n,
            n == a@.len(),
            n == b@.len(),
            forall|j: int| 0 <= j < i ==> a@[j] == b@[j],
        decreases n - i,
    {
        if a[i] != b[i] {
            return false;
        }
        i += 1;
    }
    assert(a@ =~= b@);
    true
}

impl<D: Serializer> Address<D> {
    /// The text form of an address: the prefix of its network, and its
    /// canonical bytes in groups of five bits, closed by a checksum.
    pub open spec fn text_of(m: AddressModel<D::Model>) -> Result<Seq<u8>, Bech32Error> {
        match regroup(Self::encoding(m), 8, 5, true) {
            Err(e) => Err(e),
            Ok(groups) => encode_text(prefix_of(m.mainnet), groups),
        }
    }

    /// The address that a text stands for.
    ///
    /// The prefix must be that of one of the two networks, and of the
    /// network that the address itself names. Bytes that follow the address
    /// are ignored.
    pub open spec fn parse_text(text: Seq<u8>) -> Result<AddressModel<D::Model>, AddressError> {
        match decode_text(text) {
            Err(e) => Err(AddressError::Bech32(e)),
            Ok((hrp, groups)) => if hrp != prefix_of(true) && hrp != prefix_of(false) {
                Err(AddressError::Bech32(Bech32Error::InvalidPrefix))
            } else {
                match regroup(groups, 5, 8, false) {
                    Err(e) => Err(AddressError::Bech32(e)),
                    Ok(bytes) => match Self::decoding(bytes) {
                        Err(e) => Err(AddressError::Reader(e)),
                        Ok((m, _)) => if hrp != prefix_of(m.mainnet) {
                            Err(AddressError::Bech32(Bech32Error::InvalidPrefix))
                        } else {
                            Ok(m)
                        },
                    },
                }
            },
        }
    }

    /// The text form of the address. It never fails: the prefix of either
    /// network is well formed, and the groups are groups of five bits.
    pub fn as_string(&self) -> (r: Result<String, Bech32Error>)
        ensures
            r matches Ok(s) && Self::text_of(self@) matches Ok(text) && s@ == ascii_chars(text),
    {
        let bytes = self.to_bytes();
        let bits = match convert_bits(bytes.as_slice(), 8, 5, true) {
            Ok(bits) => bits,
            Err(e) => {
                proof {
                    lemma_pow2_values();
                }
                return Err(e);
            },
        };
        proof {
            lemma_pow2_values();
            lemma_bits_in_range(Self::encoding(self@));
            lemma_prefix_well_formed(self.mainnet);
        }
        if self.mainnet {
            encode(PREFIX_ADDRESS_BYTES.as_slice(), bits.as_slice())
        } else {
            encode(TESTNET_PREFIX_ADDRESS_BYTES.as_slice(), bits.as_slice())
        }
    }

    /// The address that a text stands for.
    pub fn from_string(address: &String) -> (r: Result<Address<D>, AddressError>)
        ensures
            match Self::parse_text(encode_utf8(address@)) {
                Ok(m) => r matches Ok(a) && a@ == m,
                Err(e) => r == Err::<Address<D>, AddressError>(e),
            },
    {
        let (hrp, decoded) = match decode(address.as_str()) {
            Ok(parts) => parts,
            Err(e) => {
                return Err(AddressError::Bech32(e));
            },
        };
        let main = same_bytes(hrp.as_slice(), PREFIX_ADDRESS_BYTES.as_slice());
        let test = same_bytes(hrp.as_slice(), TESTNET_PREFIX_ADDRESS_BYTES.as_slice());
        if !main && !test {
            return Err(AddressError::Bech32(Bech32Error::InvalidPrefix));
        }
        let bits = match convert_bits(decoded.as_slice(), 5, 8, false) {
            Ok(bits) => bits,
            Err(e) => {
                return Err(AddressError::Bech32(e));
            },
        };
        let addr: Address<D> = match from_bytes(bits.as_slice()) {
            Ok(addr) => addr,
            Err(e) => {
                return Err(AddressError::Reader(e));
            },
        };
        if (addr.is_mainnet() && !main) || (!addr.is_mainnet() && !test) {
            return Err(AddressError::Bech32(Bech32Error::InvalidPrefix));
        }
        Ok(addr)
    }
}

/// Bytes regrouped with padding into groups of five bits are in range.
pub proof fn lemma_bits_in_range(bytes: Seq<u8>)
    ensures
        regroup(bytes, 8, 5, true) matches Ok(groups) && crate::crypto::bech32::in_range(
            groups,
            5,
        ),
{
    lemma_pow2_values();
    assert(crate::crypto::bech32::in_range(bytes, 8));
    let total = bytes.len() * 8;
    let left = total % 5;
    let value = crate::crypto::bech32::digits_value(bytes, 8);
    if left == 0 {
        lemma_digits_of_shape(value, 5, total / 5);
    } else {
        lemma_digits_of_shape(
            value * crate::crypto::bech32::pow2((5 - left) as nat),
            5,
            total / 5 + 1,
        );
    }
}

/// The prefix of either network is not empty, printable, and in lower case.
pub proof fn lemma_prefix_well_formed(mainnet: bool)
    ensures
        prefix_of(mainnet).len() == 3,
        crate::crypto::bech32::first_unprintable(prefix_of(mainnet)) == 3,
        !crate::crypto::bech32::has_upper(prefix_of(mainnet)),
{
    let p = prefix_of(mainnet);
    assert(p[0] == 120 && (p[1] == 101) && (p[2] == 108 || p[2] == 116)) by {
        assert(PREFIX_ADDRESS_BYTES@[0] == PREFIX_ADDRESS_BYTES[0]);
        assert(PREFIX_ADDRESS_BYTES@[1] == PREFIX_ADDRESS_BYTES[1]);
        assert(PREFIX_ADDRESS_BYTES@[2] == PREFIX_ADDRESS_BYTES[2]);
        assert(TESTNET_PREFIX_ADDRESS_BYTES@[0] == TESTNET_PREFIX_ADDRESS_BYTES[0]);
        assert(TESTNET_PREFIX_ADDRESS_BYTES@[1] == TESTNET_PREFIX_ADDRESS_BYTES[1]);
        assert(TESTNET_PREFIX_ADDRESS_BYTES@[2] == TESTNET_PREFIX_ADDRESS_BYTES[2]);
    }
    crate::crypto::bech32::lemma_first_unprintable(p, 3);
    reveal_with_fuel(crate::crypto::bech32::has_upper, 4);
    assert(p.drop_last().drop_last().drop_last().len() == 0);
}

/// Reading the text form of a valid address gives the address back.
pub proof fn lemma_address_text_round_trip<D: Serializer>(m: AddressModel<D::Model>)
    requires
        Address::<D>::valid(m),
    ensures
        Address::<D>::text_of(m) matches Ok(text) && Address::<D>::parse_text(text) == Ok::<
            AddressModel<D::Model>,
            AddressError,
        >(m),
{
    let bytes = Address::<D>::encoding(m);
    lemma_regroup_round_trip(bytes);
    lemma_bits_in_range(bytes);
    lemma_prefix_well_formed(m.mainnet);
    let groups = regroup(bytes, 8, 5, true)->Ok_0;
    lemma_text_round_trip(prefix_of(m.mainnet), groups);
    assert(bytes + Seq::<u8>::empty() =~= bytes);
    Address::<D>::lemma_round_trip(m, Seq::empty());
}

} // verus!
