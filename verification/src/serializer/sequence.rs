//! Runs of values of one type, encoded back to back.

use vstd::prelude::*;
use crate::serializer::bytes::{
    be_bytes,
    lemma_be_bytes_len,
    lemma_be_bytes_of_value,
    lemma_be_value_bound,
    lemma_be_value_of_bytes,
    pow256,
};
use crate::serializer::codec::Serializer;
use crate::serializer::error::ReaderError;
use crate::serializer::reader::{take_bytes, take_uint, Reader};
use crate::serializer::writer::Writer;

verus! {

/// The models of the values of a sequence, in order.
pub open spec fn models<T: Serializer>(items: Seq<T>) -> Seq<T::Model> {
    Seq::new(items.len(), |i: int| items[i].model())
}

/// Whether every model of a sequence is valid.
pub open spec fn all_valid<T: Serializer>(items: Seq<T::Model>) -> bool {
    forall|i: int| 0 <= i < items.len() ==> T::valid(#[trigger] items[i])
}

/// The encodings of `items`, one after another.
pub open spec fn encode_many<T: Serializer>(items: Seq<T::Model>) -> Seq<u8>
    decreases items.len(),
{
    if items.len() == 0 {
        Seq::empty()
    } else {
        encode_many::<T>(items.drop_last()) + T::encoding(items.last())
    }
}

/// The first `count` values at the head of `input`, and what follows them.
/// The first value that fails to decode gives the error of the whole.
pub open spec fn decode_many<T: Serializer>(input: Seq<u8>, count: nat) -> Result<
    (Seq<T::Model>, Seq<u8>),
    ReaderError,
>
    decreases count,
{
    if count == 0 {
        Ok((Seq::empty(), input))
    } else {
        match decode_many::<T>(input, (count - 1) as nat) {
            Err(e) => Err(e),
            Ok((init, rest)) => match T::decoding(rest) {
                Err(e) => Err(e),
                Ok((last, rest)) => Ok((init.push(last), rest)),
            },
        }
    }
}

/// A run that fails after `i` values fails the same way however many are
/// asked for beyond that.
pub proof fn lemma_decode_many_fails<T: Serializer>(input: Seq<u8>, i: nat, count: nat)
    requires
        i <= count,
        decode_many::<T>(input, i) is Err,
    ensures
        decode_many::<T>(input, count) == decode_many::<T>(input, i),
    decreases count,
{
    if i < count {
        lemma_decode_many_fails::<T>(input, i, (count - 1) as nat);
    }
}

/// A run of `count` values that decodes holds `count` values.
pub proof fn lemma_decode_many_len<T: Serializer>(input: Seq<u8>, count: nat)
    ensures
        decode_many::<T>(input, count) matches Ok((items, _)) ==> items.len() == count,
    decreases count,
{
    if count > 0 {
        lemma_decode_many_len::<T>(input, (count - 1) as nat);
    }
}

/// The encoding of a run that ends in `last` is the encoding of the run
/// before it, then that of `last`.
pub proof fn lemma_encode_many_push<T: Serializer>(items: Seq<T::Model>, last: T::Model)
    ensures
        encode_many::<T>(items.push(last)) == encode_many::<T>(items) + T::encoding(last),
{
    assert(items.push(last).drop_last() =~= items);
}

/// Decoding a run of valid values from its encoding gives the run back and
/// leaves exactly what followed it.
pub proof fn lemma_many_round_trip<T: Serializer>(items: Seq<T::Model>, rest: Seq<u8>)
    requires
        all_valid::<T>(items),
    ensures
        decode_many::<T>(encode_many::<T>(items) + rest, items.len()) == Ok::<
            (Seq<T::Model>, Seq<u8>),
            ReaderError,
        >((items, rest)),
    decreases items.len(),
{
    if items.len() > 0 {
        let init = items.drop_last();
        let last = items.last();
        let tail = T::encoding(last) + rest;
        let input = encode_many::<T>(items) + rest;
        assert(input =~= encode_many::<T>(init) + tail);
        assert forall|i: int| 0 <= i < init.len() implies T::valid(#[trigger] init[i]) by {
            assert(init[i] == items[i]);
        }
        assert(T::valid(items[items.len() - 1]));
        lemma_many_round_trip::<T>(init, tail);
        T::lemma_round_trip(last, rest);
        assert(init.push(last) =~= items);
        assert(decode_many::<T>(input, init.len()) == Ok::<
            (Seq<T::Model>, Seq<u8>),
            ReaderError,
        >((init, tail)));
    } else {
        assert(encode_many::<T>(items) + rest =~= rest);
        assert(items =~= Seq::<T::Model>::empty());
    }
}

/// Appends the encodings of `items` to `writer`, in order.
pub fn write_many<T: Serializer>(items: &Vec<T>, writer: &mut Writer)
    ensures
        final(writer)@ == old(writer)@ + encode_many::<T>(models(items@)),
{
    let n = items.len();
    let mut i: usize = 0;
    assert(models(items@).take(0) =~= Seq::<T::Model>::empty());
    while i < n
        invariant
            i <= n,
            n == items@.len(),
            writer@ == old(writer)@ + encode_many::<T>(models(items@).take(i as int)),
        decreases n - i,
    {
        items[i].write(writer);
        proof {
            let done = models(items@).take(i as int);
            assert(models(items@).take(i + 1) =~= done.push(items@[i as int].model()));
            lemma_encode_many_push::<T>(done, items@[i as int].model());
            assert(writer@ =~= old(writer)@ + encode_many::<T>(models(items@).take(i + 1)));
        }
        i += 1;
    }
    assert(models(items@).take(n as int) =~= models(items@));
}

/// Decodes `count` values from the bytes that `reader` has left.
pub fn read_many<T: Serializer>(reader: &mut Reader<'_>, count: usize) -> (r: Result<
    Vec<T>,
    ReaderError,
>)
    ensures
        old(reader).leads_to(*final(reader)),
        match decode_many::<T>(old(reader).remaining(), count as nat) {
            Ok((items, rest)) => {
                &&& r matches Ok(v)
                &&& models(v@) == items
                &&& final(reader).remaining() == rest
            },
            Err(e) => r matches Err(f) && f == e,
        },
{
    let mut out: Vec<T> = Vec::new();
    let mut i: usize = 0;
    let ghost input = reader.remaining();
    proof {
        use_type_invariant(&*reader);
        reader.lemma_within_buffer();
    }
    assert(models(out@) =~= Seq::<T::Model>::empty());
    while i < count
        invariant
            i <= count,
            out@.len() == i,
            old(reader).leads_to(*reader),
            input == old(reader).remaining(),
            decode_many::<T>(input, i as nat) == Ok::<(Seq<T::Model>, Seq<u8>), ReaderError>(
                (models(out@), reader.remaining()),
            ),
        decreases count - i,
    {
        let ghost before = models(out@);
        match T::read(reader) {
            Ok(x) => {
                out.push(x);
                proof {
                    assert(models(out@) =~= before.push(x.model()));
                }
            },
            Err(e) => {
                proof {
                    lemma_decode_many_fails::<T>(input, (i + 1) as nat, count as nat);
                }
                return Err(e);
            },
        }
        i += 1;
    }
    Ok(out)
}

/// The first bytes of `head + tail` are `head`, and `tail` follows.
pub proof fn lemma_take_bytes_concat(head: Seq<u8>, tail: Seq<u8>)
    ensures
        take_bytes(head + tail, head.len()) == Ok::<(Seq<u8>, Seq<u8>), ReaderError>(
            (head, tail),
        ),
{
    assert((head + tail).take(head.len() as int) =~= head);
    assert((head + tail).skip(head.len() as int) =~= tail);
}

/// The integer at the head of `be_bytes(x, n) + tail` is `x`, when `x` fits in
/// `n` bytes, and `tail` follows.
pub proof fn lemma_take_uint_concat(x: nat, n: nat, tail: Seq<u8>)
    requires
        x < pow256(n),
    ensures
        take_uint(be_bytes(x, n) + tail, n) == Ok::<(nat, Seq<u8>), ReaderError>((x, tail)),
{
    lemma_be_bytes_len(x, n);
    lemma_take_bytes_concat(be_bytes(x, n), tail);
    lemma_be_value_of_bytes(x, n);
}

/// What `take_bytes` gives is the first `n` bytes of the input, and the input
/// is those bytes and the rest.
pub proof fn lemma_take_bytes_sound(input: Seq<u8>, n: nat)
    ensures
        take_bytes(input, n) matches Ok((head, rest)) ==> head.len() == n && input == head + rest,
{
    if let Ok((head, rest)) = take_bytes(input, n) {
        assert(input =~= head + rest);
    }
}

/// What `take_uint` gives fits in `n` bytes, and the input is its `n` bytes
/// and the rest.
pub proof fn lemma_take_uint_sound(input: Seq<u8>, n: nat)
    ensures
        take_uint(input, n) matches Ok((value, rest)) ==> value < pow256(n) && input == be_bytes(
            value,
            n,
        ) + rest,
{
    if let Ok((head, rest)) = take_bytes(input, n) {
        lemma_take_bytes_sound(input, n);
        lemma_be_value_bound(head);
        lemma_be_bytes_of_value(head);
    }
}

/// A run that decodes holds `count` valid values, and the input is their
/// encodings and the rest.
pub proof fn lemma_decode_many_sound<T: Serializer>(input: Seq<u8>, count: nat)
    ensures
        decode_many::<T>(input, count) matches Ok((items, rest)) ==> {
            &&& items.len() == count
            &&& all_valid::<T>(items)
            &&& input == encode_many::<T>(items) + rest
        },
    decreases count,
{
    if count == 0 {
        assert(input =~= encode_many::<T>(Seq::empty()) + input);
    } else {
        lemma_decode_many_sound::<T>(input, (count - 1) as nat);
        if let Ok((init, middle)) = decode_many::<T>(input, (count - 1) as nat) {
            T::lemma_decoding_sound(middle);
            if let Ok((last, rest)) = T::decoding(middle) {
                let items = init.push(last);
                lemma_encode_many_push::<T>(init, last);
                assert(input =~= encode_many::<T>(items) + rest);
                assert forall|i: int| 0 <= i < items.len() implies T::valid(
                    #[trigger] items[i],
                ) by {
                    if i < init.len() {
                        assert(items[i] == init[i]);
                    }
                }
            }
        }
    }
}

/// Joining three runs of bytes gives the same whichever two are joined first.
pub proof fn lemma_concat_assoc(a: Seq<u8>, b: Seq<u8>, c: Seq<u8>)
    ensures
        a + b + c == a + (b + c),
{
    assert(a + b + c =~= a + (b + c));
}

/// A number below 256 is written in one byte as itself.
pub proof fn lemma_be_bytes_one(x: nat)
    requires
        x < 256,
    ensures
        be_bytes(x, 1) == seq![x as u8],
{
    reveal_with_fuel(be_bytes, 2);
    assert(be_bytes(x, 1) =~= seq![x as u8]);
}

} // verus!
