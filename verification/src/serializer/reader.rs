//! The byte reader: a cursor over a borrowed buffer.

use vstd::prelude::*;
use vstd::slice::slice_subrange;
use crate::crypto::hash;
use crate::crypto::hash::HASH_SIZE;
use crate::serializer::bytes::{be_value, lemma_be_value_bound, lemma_pow256_widths, pow256};
use crate::serializer::error::ReaderError;

verus! {

/// The first `n` bytes of `input` and what follows them, or `Truncated`.
pub open spec fn take_bytes(input: Seq<u8>, n: nat) -> Result<(Seq<u8>, Seq<u8>), ReaderError> {
    if input.len() < n {
        Err(ReaderError::Truncated)
    } else {
        Ok((input.take(n as int), input.skip(n as int)))
    }
}

/// The big-endian integer in the first `n` bytes of `input`, and what follows.
pub open spec fn take_uint(input: Seq<u8>, n: nat) -> Result<(nat, Seq<u8>), ReaderError> {
    match take_bytes(input, n) {
        Ok((head, rest)) => Ok((be_value(head), rest)),
        Err(e) => Err(e),
    }
}

/// The boolean in the first byte of `input`: `0` or `1`, nothing else.
pub open spec fn take_bool(input: Seq<u8>) -> Result<(bool, Seq<u8>), ReaderError> {
    if input.len() < 1 {
        Err(ReaderError::Truncated)
    } else if input[0] == 0 {
        Ok((false, input.skip(1)))
    } else if input[0] == 1 {
        Ok((true, input.skip(1)))
    } else {
        Err(ReaderError::InvalidValue)
    }
}

/// A cursor over a byte buffer. It only moves forward, and never past the end.
pub struct Reader<'a> {
    bytes: &'a [u8],
    total: usize,
}

impl<'a> Reader<'a> {
    /// Every reader that exists at run time stands within its buffer.
    #[verifier::type_invariant]
    pub closed spec fn within_buffer(self) -> bool {
        self.total <= self.bytes@.len()
    }

    /// What `within_buffer` says of the place of the reader.
    pub proof fn lemma_within_buffer(self)
        requires
            self.within_buffer(),
        ensures
            self.position() <= self.data().len(),
            self.leads_to(self),
    {
    }

    /// The whole buffer.
    pub closed spec fn data(self) -> Seq<u8> {
        self.bytes@
    }

    /// How many bytes have been read.
    pub closed spec fn position(self) -> nat {
        self.total as nat
    }

    /// The bytes not yet read.
    pub open spec fn remaining(self) -> Seq<u8> {
        self.data().skip(self.position() as int)
    }

    /// Whether `later` is this reader further on: over the same buffer, at a
    /// place not before this one and not past the end.
    pub open spec fn leads_to(self, later: Reader<'a>) -> bool {
        &&& later.data() == self.data()
        &&& self.position() <= later.position() <= later.data().len()
    }

    /// A reader at the start of `bytes`.
    pub fn new(bytes: &'a [u8]) -> (r: Reader<'a>)
        ensures
            r.data() == bytes@,
            r.position() == 0,
            r.remaining() == bytes@,
    {
        let r = Reader { bytes, total: 0 };
        assert(r.remaining() =~= bytes@);
        r
    }

    /// The next `n` bytes, borrowed from the buffer.
    fn advance(&mut self, n: usize) -> (r: Result<&'a [u8], ReaderError>)
        ensures
            old(self).leads_to(*final(self)),
            match take_bytes(old(self).remaining(), n as nat) {
                Ok((head, rest)) => r matches Ok(s) && s@ == head && final(self).remaining()
                    == rest,
                Err(e) => r == Err::<&[u8], ReaderError>(e) && *final(self) == *old(self),
            },
    {
        proof {
            use_type_invariant(&*self);
        }
        if n > self.bytes.len() - self.total {
            return Err(ReaderError::Truncated);
        }
        let start = self.total;
        let s = slice_subrange(self.bytes, start, start + n);
        self.total = start + n;
        proof {
            assert(s@ =~= old(self).remaining().take(n as int));
            assert(self.remaining() =~= old(self).remaining().skip(n as int));
        }
        Ok(s)
    }

    /// The big-endian integer in the next `n` bytes.
    fn read_uint(&mut self, n: usize) -> (r: Result<u128, ReaderError>)
        requires
            n <= 16,
        ensures
            old(self).leads_to(*final(self)),
            match take_uint(old(self).remaining(), n as nat) {
                Ok((v, rest)) => r == Ok::<u128, ReaderError>(v as u128) && v < pow256(n as nat)
                    && final(self).remaining() == rest,
                Err(e) => r == Err::<u128, ReaderError>(e) && *final(self) == *old(self),
            },
    {
        let s = self.advance(n)?;
        let mut v: u128 = 0;
        let mut i: usize = 0;
        proof {
            lemma_pow256_widths();
            assert(s@.take(0) =~= Seq::<u8>::empty());
        }
        while i < n
            invariant
                i <= n <= 16,
                s@.len() == n,
                v == be_value(s@.take(i as int)),
            decreases n - i,
        {
            proof {
                let t = s@.take(i + 1);
                assert(t.drop_last() =~= s@.take(i as int));
                lemma_be_value_bound(s@.take(i as int));
                lemma_be_value_bound(t);
                lemma_pow256_mono((i + 1) as nat, 16);
                lemma_pow256_widths();
                assert(t.last() == s@[i as int]);
                assert(be_value(t) == v * 256 + s@[i as int]);
            }
            v = v * 256 + s[i] as u128;
            i += 1;
        }
        proof {
            assert(s@.take(n as int) =~= s@);
            lemma_be_value_bound(s@);
        }
        Ok(v)
    }

    /// The next byte.
    pub fn read_u8(&mut self) -> (r: Result<u8, ReaderError>)
        ensures
            old(self).leads_to(*final(self)),
            match take_uint(old(self).remaining(), 1) {
                Ok((v, rest)) => r == Ok::<u8, ReaderError>(v as u8) && v == old(
                    self,
                ).remaining()[0] && final(self).remaining() == rest,
                Err(e) => r == Err::<u8, ReaderError>(e) && *final(self) == *old(self),
            },
    {
        let ghost input = self.remaining();
        let v = self.read_uint(1)?;
        proof {
            lemma_pow256_widths();
            lemma_be_value_single(input.take(1));
        }
        Ok(v as u8)
    }

    /// The next byte as a boolean. A byte other than `0` and `1` is refused.
    pub fn read_bool(&mut self) -> (r: Result<bool, ReaderError>)
        ensures
            old(self).leads_to(*final(self)),
            match take_bool(old(self).remaining()) {
                Ok((v, rest)) => r == Ok::<bool, ReaderError>(v) && final(self).remaining()
                    == rest,
                Err(e) => r == Err::<bool, ReaderError>(e),
            },
    {
        let v = self.read_u8()?;
        if v == 0 {
            Ok(false)
        } else if v == 1 {
            Ok(true)
        } else {
            Err(ReaderError::InvalidValue)
        }
    }

    /// The next two bytes as a big-endian integer.
    pub fn read_u16(&mut self) -> (r: Result<u16, ReaderError>)
        ensures
            old(self).leads_to(*final(self)),
            match take_uint(old(self).remaining(), 2) {
                Ok((v, rest)) => r == Ok::<u16, ReaderError>(v as u16) && v <= u16::MAX
                    && final(self).remaining() == rest,
                Err(e) => r == Err::<u16, ReaderError>(e) && *final(self) == *old(self),
            },
    {
        let v = self.read_uint(2)?;
        proof {
            lemma_pow256_widths();
        }
        Ok(v as u16)
    }

    /// The next eight bytes as a big-endian integer.
    pub fn read_u64(&mut self) -> (r: Result<u64, ReaderError>)
        ensures
            old(self).leads_to(*final(self)),
            match take_uint(old(self).remaining(), 8) {
                Ok((v, rest)) => r == Ok::<u64, ReaderError>(v as u64) && v <= u64::MAX
                    && final(self).remaining() == rest,
                Err(e) => r == Err::<u64, ReaderError>(e) && *final(self) == *old(self),
            },
    {
        let v = self.read_uint(8)?;
        proof {
            lemma_pow256_widths();
        }
        Ok(v as u64)
    }

    /// The next sixteen bytes as a big-endian integer.
    pub fn read_u128(&mut self) -> (r: Result<u128, ReaderError>)
        ensures
            old(self).leads_to(*final(self)),
            match take_uint(old(self).remaining(), 16) {
                Ok((v, rest)) => r == Ok::<u128, ReaderError>(v as u128) && v <= u128::MAX
                    && final(self).remaining() == rest,
                Err(e) => r == Err::<u128, ReaderError>(e) && *final(self) == *old(self),
            },
    {
        let v = self.read_uint(16)?;
        proof {
            lemma_pow256_widths();
        }
        Ok(v)
    }

    /// The next 32 bytes.
    pub fn read_bytes_32(&mut self) -> (r: Result<[u8; 32], ReaderError>)
        ensures
            old(self).leads_to(*final(self)),
            match take_bytes(old(self).remaining(), 32) {
                Ok((head, rest)) => r matches Ok(a) && a@ == head && final(self).remaining()
                    == rest,
                Err(e) => r == Err::<[u8; 32], ReaderError>(e) && *final(self) == *old(self),
            },
    {
        let s = self.advance(32)?;
        let mut out: [u8; 32] = [0u8; 32];
        let mut i: usize = 0;
        while i < 32
            invariant
                i <= 32,
                s@.len() == 32,
                forall|j: int| 0 <= j < i ==> out@[j] == s@[j],
            decreases 32 - i,
        {
            out[i] = s[i];
            i += 1;
        }
        assert(out@ =~= s@);
        Ok(out)
    }

    /// The next 64 bytes.
    pub fn read_bytes_64(&mut self) -> (r: Result<[u8; 64], ReaderError>)
        ensures
            old(self).leads_to(*final(self)),
            match take_bytes(old(self).remaining(), 64) {
                Ok((head, rest)) => r matches Ok(a) && a@ == head && final(self).remaining()
                    == rest,
                Err(e) => r == Err::<[u8; 64], ReaderError>(e) && *final(self) == *old(self),
            },
    {
        let s = self.advance(64)?;
        let mut out: [u8; 64] = [0u8; 64];
        let mut i: usize = 0;
        while i < 64
            invariant
                i <= 64,
                s@.len() == 64,
                forall|j: int| 0 <= j < i ==> out@[j] == s@[j],
            decreases 64 - i,
        {
            out[i] = s[i];
            i += 1;
        }
        assert(out@ =~= s@);
        Ok(out)
    }

    /// The next 32 bytes as a hash.
    pub fn read_hash(&mut self) -> (r: Result<hash::Hash, ReaderError>)
        ensures
            old(self).leads_to(*final(self)),
            match take_bytes(old(self).remaining(), HASH_SIZE as nat) {
                Ok((head, rest)) => r matches Ok(h) && h@ == head && final(self).remaining()
                    == rest,
                Err(e) => r == Err::<hash::Hash, ReaderError>(e) && *final(self) == *old(self),
            },
    {
        let bytes = self.read_bytes_32()?;
        Ok(hash::Hash::new(bytes))
    }

    /// The length of the whole buffer.
    pub fn total_size(&self) -> (r: usize)
        ensures
            r == self.data().len(),
    {
        self.bytes.len()
    }

    /// How many bytes have been read.
    pub fn total_read(&self) -> (r: usize)
        ensures
            r == self.position(),
            r + self.remaining().len() == self.data().len(),
    {
        proof {
            use_type_invariant(self);
        }
        self.total
    }

    /// How many bytes remain.
    pub fn size(&self) -> (r: usize)
        ensures
            r == self.remaining().len(),
    {
        proof {
            use_type_invariant(self);
        }
        self.bytes.len() - self.total
    }
}

/// The powers of 256 grow with the exponent.
pub proof fn lemma_pow256_mono(a: nat, b: nat)
    requires
        a <= b,
    ensures
        pow256(a) <= pow256(b),
    decreases b,
{
    if a < b {
        lemma_pow256_mono(a, (b - 1) as nat);
    }
}

/// One byte spells its own value.
pub proof fn lemma_be_value_single(s: Seq<u8>)
    requires
        s.len() == 1,
    ensures
        be_value(s) == s[0],
{
    assert(s.drop_last().len() == 0);
    assert(be_value(s.drop_last()) == 0);
}

} // verus!
