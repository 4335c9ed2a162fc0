//! The trait that ties a type to its canonical encoding.

use vstd::prelude::*;
use crate::serializer::error::ReaderError;
use crate::serializer::hex;
use crate::serializer::reader::{take_bool, Reader};
use crate::serializer::writer::Writer;

verus! {

/// A type with a canonical binary encoding.
///
/// Each implementor names the mathematical value that an instance stands for
/// (its model), the bytes that encode a model, and the decoder as a function
/// from input bytes to a model and the bytes left over. `write` and `read` are
/// proved against these, and `lemma_round_trip` shows that decoding undoes
/// encoding on every valid model.
pub trait Serializer: Sized {
    /// The mathematical value that an instance stands for.
    type Model;

    /// The model of this instance.
    spec fn model(&self) -> Self::Model;

    /// The models that the encoding represents faithfully.
    spec fn valid(m: Self::Model) -> bool;

    /// The canonical bytes of a model.
    spec fn encoding(m: Self::Model) -> Seq<u8>;

    /// The model at the head of `input` and the bytes after it, or the reason
    /// why there is none.
    spec fn decoding(input: Seq<u8>) -> Result<(Self::Model, Seq<u8>), ReaderError>;

    /// Appends the canonical bytes of `self` to `writer`.
    fn write(&self, writer: &mut Writer)
        ensures
            final(writer)@ == old(writer)@ + Self::encoding(self.model()),
    ;

    /// Decodes one value from the bytes that `reader` has left, and leaves the
    /// reader just behind it. A failure returns the decoder's error and no
    /// value.
    fn read(reader: &mut Reader<'_>) -> (r: Result<Self, ReaderError>)
        ensures
            old(reader).leads_to(*final(reader)),
            match Self::decoding(old(reader).remaining()) {
                Ok((m, rest)) => r matches Ok(x) && x.model() == m && final(reader).remaining()
                    == rest,
                Err(e) => r matches Err(f) && f == e,
            },
    ;

    /// Decoding the encoding of a valid model gives the model back and leaves
    /// exactly what followed it.
    proof fn lemma_round_trip(m: Self::Model, rest: Seq<u8>)
        requires
            Self::valid(m),
        ensures
            Self::decoding(Self::encoding(m) + rest) == Ok::<
                (Self::Model, Seq<u8>),
                ReaderError,
            >((m, rest)),
    ;

    /// Whatever decodes is valid, and the input is its canonical bytes and
    /// what was left over: no other bytes decode to the same value.
    proof fn lemma_decoding_sound(input: Seq<u8>)
        ensures
            Self::decoding(input) matches Ok((m, rest)) ==> Self::valid(m) && input
                == Self::encoding(m) + rest,
    ;

    /// The canonical bytes of `self`.
    fn to_bytes(&self) -> (r: Vec<u8>)
        ensures
            r@ == Self::encoding(self.model()),
    {
        let mut writer = Writer::new();
        self.write(&mut writer);
        assert(writer@ =~= Self::encoding(self.model()));
        writer.bytes()
    }

    /// The canonical bytes of `self` as lower-case hexadecimal text.
    fn to_hex(&self) -> (r: String)
        ensures
            r@ == hex::hex_text(Self::encoding(self.model())),
    {
        let bytes = self.to_bytes();
        hex::encode(bytes.as_slice())
    }

    /// The length of the canonical bytes of `self`.
    fn size(&self) -> (r: usize)
        ensures
            r == Self::encoding(self.model()).len(),
    {
        let mut writer = Writer::new();
        self.write(&mut writer);
        assert(writer@ =~= Self::encoding(self.model()));
        writer.total_write()
    }
}

/// Decodes a value from the whole of `bytes`, ignoring what follows it.
pub fn from_bytes<T: Serializer>(bytes: &[u8]) -> (r: Result<T, ReaderError>)
    ensures
        match T::decoding(bytes@) {
            Ok((m, rest)) => r matches Ok(x) && x.model() == m,
            Err(e) => r matches Err(f) && f == e,
        },
{
    let mut reader = Reader::new(bytes);
    T::read(&mut reader)
}

/// Decodes a value from hexadecimal text, ignoring what follows the value.
/// A text that is not an even number of hexadecimal digits is refused.
pub fn from_hex<T: Serializer>(text: &str) -> (r: Result<T, ReaderError>)
    ensures
        if hex::is_hex(text@) {
            match T::decoding(hex::hex_bytes(text@)) {
                Ok((m, rest)) => r matches Ok(x) && x.model() == m,
                Err(e) => r matches Err(f) && f == e,
            }
        } else {
            r matches Err(f) && f == ReaderError::InvalidHex
        },
{
    match hex::decode(text) {
        Some(bytes) => from_bytes(bytes.as_slice()),
        None => Err(ReaderError::InvalidHex),
    }
}

/// An optional value: a presence byte, then the value if present.
impl<T: Serializer> Serializer for Option<T> {
    type Model = Option<T::Model>;

    open spec fn model(&self) -> Option<T::Model> {
        match self {
            Some(x) => Some(x.model()),
            None => None,
        }
    }

    open spec fn valid(m: Option<T::Model>) -> bool {
        m matches Some(x) ==> T::valid(x)
    }

    open spec fn encoding(m: Option<T::Model>) -> Seq<u8> {
        match m {
            Some(x) => seq![1u8] + T::encoding(x),
            None => seq![0u8],
        }
    }

    open spec fn decoding(input: Seq<u8>) -> Result<(Option<T::Model>, Seq<u8>), ReaderError> {
        match take_bool(input) {
            Err(e) => Err(e),
            Ok((false, rest)) => Ok((None, rest)),
            Ok((true, rest)) => match T::decoding(rest) {
                Err(e) => Err(e),
                Ok((x, rest)) => Ok((Some(x), rest)),
            },
        }
    }

    fn write(&self, writer: &mut Writer) {
        match self {
            Some(x) => {
                writer.write_bool(true);
                x.write(writer);
                assert(writer@ =~= old(writer)@ + (seq![1u8] + T::encoding(x.model())));
            },
            None => {
                writer.write_bool(false);
                assert(writer@ =~= old(writer)@ + seq![0u8]);
            },
        }
    }

    fn read(reader: &mut Reader<'_>) -> (r: Result<Self, ReaderError>) {
        if reader.read_bool()? {
            let x = T::read(reader)?;
            Ok(Some(x))
        } else {
            Ok(None)
        }
    }

    proof fn lemma_round_trip(m: Option<T::Model>, rest: Seq<u8>) {
        let input = Self::encoding(m) + rest;
        match m {
            Some(x) => {
                assert(input.skip(1) =~= T::encoding(x) + rest);
                T::lemma_round_trip(x, rest);
            },
            None => {
                assert(input.skip(1) =~= rest);
            },
        }
    }

    proof fn lemma_decoding_sound(input: Seq<u8>) {
        if let Ok((present, rest)) = take_bool(input) {
            assert(input =~= seq![input[0]] + rest);
            if present {
                T::lemma_decoding_sound(rest);
                if let Ok((x, after)) = T::decoding(rest) {
                    assert(input =~= seq![1u8] + T::encoding(x) + after);
                }
            }
        }
    }
}

} // verus!
