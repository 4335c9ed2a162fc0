//! The byte writer: an append-only buffer.

use vstd::prelude::*;
use crate::crypto::hash;
use crate::serializer::bytes::{be_bytes, lemma_be_bytes_len};

verus! {

/// An append-only byte buffer. Its view is the bytes written so far.
pub struct Writer {
    bytes: Vec<u8>,
}

impl View for Writer {
    type V = Seq<u8>;

    closed spec fn view(&self) -> Seq<u8> {
        self.bytes@
    }
}

/// The byte that stands for a boolean.
pub open spec fn bool_byte(value: bool) -> u8 {
    if value {
        1
    } else {
        0
    }
}

impl Writer {
    /// An empty writer.
    pub fn new() -> (r: Writer)
        ensures
            r@ == Seq::<u8>::empty(),
    {
        Writer { bytes: Vec::new() }
    }

    /// Appends the `n` low-order bytes of `value`, most significant first.
    fn write_uint(&mut self, value: u128, n: usize)
        requires
            n <= 16,
        ensures
            final(self)@ == old(self)@ + be_bytes(value as nat, n as nat),
    {
        let mut buf: [u8; 16] = [0u8; 16];
        let mut v: u128 = value;
        let mut i: usize = n;
        proof {
            lemma_be_bytes_len(value as nat, n as nat);
            assert(be_bytes(value as nat, n as nat) =~= be_bytes(v as nat, i as nat)
                + buf@.subrange(i as int, n as int));
        }
        while i > 0
            invariant
                i <= n <= 16,
                be_bytes(value as nat, n as nat) == be_bytes(v as nat, i as nat) + buf@.subrange(
                    i as int,
                    n as int,
                ),
            decreases i,
        {
            let ghost prev = buf@;
            let ghost pv = v;
            i -= 1;
            buf[i] = (v % 256) as u8;
            v = v / 256;
            proof {
                assert(buf@.subrange(i as int, n as int) =~= seq![(pv % 256) as u8]
                    + prev.subrange(i + 1, n as int));
                assert(be_bytes(pv as nat, (i + 1) as nat) == be_bytes(v as nat, i as nat).push(
                    (pv % 256) as u8,
                ));
                assert(be_bytes(value as nat, n as nat) =~= be_bytes(v as nat, i as nat)
                    + buf@.subrange(i as int, n as int));
            }
        }
        assert(be_bytes(value as nat, n as nat) =~= buf@.subrange(0, n as int));
        let mut k: usize = 0;
        while k < n
            invariant
                k <= n <= 16,
                self@ == old(self)@ + buf@.subrange(0, k as int),
            decreases n - k,
        {
            self.bytes.push(buf[k]);
            k += 1;
            assert(self@ =~= old(self)@ + buf@.subrange(0, k as int));
        }
    }

    /// Appends one byte.
    pub fn write_u8(&mut self, value: u8)
        ensures
            final(self)@ == old(self)@.push(value),
    {
        self.bytes.push(value);
    }

    /// Appends `1` for `true` and `0` for `false`.
    pub fn write_bool(&mut self, value: bool)
        ensures
            final(self)@ == old(self)@.push(bool_byte(value)),
    {
        self.bytes.push(if value { 1 } else { 0 });
    }

    /// Appends `value` as two bytes, most significant first.
    pub fn write_u16(&mut self, value: u16)
        ensures
            final(self)@ == old(self)@ + be_bytes(value as nat, 2),
    {
        self.write_uint(value as u128, 2);
    }

    /// Appends `value` as four bytes, most significant first.
    pub fn write_u32(&mut self, value: &u32)
        ensures
            final(self)@ == old(self)@ + be_bytes(*value as nat, 4),
    {
        self.write_uint(*value as u128, 4);
    }

    /// Appends `value` as eight bytes, most significant first.
    pub fn write_u64(&mut self, value: &u64)
        ensures
            final(self)@ == old(self)@ + be_bytes(*value as nat, 8),
    {
        self.write_uint(*value as u128, 8);
    }

    /// Appends `value` as sixteen bytes, most significant first.
    pub fn write_u128(&mut self, value: &u128)
        ensures
            final(self)@ == old(self)@ + be_bytes(*value as nat, 16),
    {
        self.write_uint(*value, 16);
    }

    /// Appends `bytes` as they are.
    pub fn write_bytes(&mut self, bytes: &[u8])
        ensures
            final(self)@ == old(self)@ + bytes@,
    {
        let n = bytes.len();
        let mut i: usize = 0;
        while i < n
            invariant
                i <= n,
                n == bytes@.len(),
                self@ == old(self)@ + bytes@.take(i as int),
            decreases n - i,
        {
            self.bytes.push(bytes[i]);
            i += 1;
            assert(self@ =~= old(self)@ + bytes@.take(i as int));
        }
        assert(bytes@.take(n as int) =~= bytes@);
    }

    /// Appends the 32 bytes of `hash`.
    pub fn write_hash(&mut self, value: &hash::Hash)
        ensures
            final(self)@ == old(self)@ + value@,
    {
        self.write_bytes(value.as_bytes().as_slice());
    }

    /// The number of bytes written so far.
    pub fn total_write(&self) -> (r: usize)
        ensures
            r == self@.len(),
    {
        self.bytes.len()
    }

    /// The bytes written, giving up the writer.
    pub fn bytes(self) -> (r: Vec<u8>)
        ensures
            r@ == self@,
    {
        self.bytes
    }
}

} // verus!
