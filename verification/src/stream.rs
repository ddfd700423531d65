//! An in-memory byte source with a read position.
use byteorder::{NetworkEndian, ReadBytesExt, WriteBytesExt};
use vstd::prelude::*;
use vstd::slice::{slice_subrange, slice_to_vec};

verus! {

/// The transport gave out: the source ended before the bytes asked for.
#[derive(Debug, Clone, Copy, PartialEq, Eq)]
pub enum IOFailure {
    UnexpectedEof,
}

/// The four bytes of a 32-bit integer in network order, most significant first.
pub open spec fn u32_be_bytes(n: u32) -> Seq<u8> {
    seq![
        (n / 0x100 / 0x100 / 0x100) as u8,
        (n / 0x100 / 0x100 % 0x100) as u8,
        (n / 0x100 % 0x100) as u8,
        (n % 0x100) as u8,
    ]
}

/// The 32-bit integer that the first four bytes of `s` stand for in network order.
pub open spec fn u32_from_be(s: Seq<u8>) -> u32
    recommends
        s.len() >= 4,
{
    (((s[0] * 0x100 + s[1]) * 0x100 + s[2]) * 0x100 + s[3]) as u32
}

/// An integer's bytes in network order stand for it.
pub proof fn lemma_u32_from_be_bytes(n: u32)
    ensures
        u32_be_bytes(n).len() == 4,
        u32_from_be(u32_be_bytes(n)) == n,
{
    let q1 = n / 0x100;
    let q2 = q1 / 0x100;
    let q3 = q2 / 0x100;
    assert(n == q1 * 0x100 + n % 0x100);
    assert(q1 == q2 * 0x100 + q1 % 0x100);
    assert(q2 == q3 * 0x100 + q2 % 0x100);
    assert(q3 < 0x100);
}

/// Four bytes are the bytes in network order of the integer they stand for.
pub proof fn lemma_u32_be_bytes_from(s: Seq<u8>)
    requires
        s.len() == 4,
    ensures
        u32_be_bytes(u32_from_be(s)) == s,
{
    let a = s[0] as int;
    let b = s[1] as int;
    let c = s[2] as int;
    let d = s[3] as int;
    let n3 = a;
    let n2 = n3 * 0x100 + b;
    let n1 = n2 * 0x100 + c;
    let n0 = n1 * 0x100 + d;
    assert(n0 / 0x100 == n1 && n0 % 0x100 == d);
    assert(n1 / 0x100 == n2 && n1 % 0x100 == c);
    assert(n2 / 0x100 == n3 && n2 % 0x100 == b);
    assert(0 <= n0 <= u32::MAX);
    assert(u32_from_be(s) == n0);
    assert(u32_be_bytes(u32_from_be(s)) =~= s);
}

/// `ReadBytesExt::read_u8` of byteorder on a byte slice: the first byte,
/// or nothing where the slice is empty.
#[verifier::external_body]
fn read_u8_from(bytes: &[u8]) -> (r: Option<u8>)
    ensures
        bytes@.len() >= 1 ==> r == Some(bytes@[0]),
        bytes@.len() < 1 ==> r is None,
{
    let mut source = bytes;
    source.read_u8().ok()
}

/// `ReadBytesExt::read_u32::<NetworkEndian>` of byteorder on a byte slice:
/// the integer that the first four bytes stand for in network order, or
/// nothing where the slice is shorter.
#[verifier::external_body]
fn read_u32_from(bytes: &[u8]) -> (r: Option<u32>)
    ensures
        bytes@.len() >= 4 ==> r == Some(u32_from_be(bytes@)),
        bytes@.len() < 4 ==> r is None,
{
    let mut source = bytes;
    source.read_u32::<NetworkEndian>().ok()
}

/// `WriteBytesExt::write_u8` of byteorder on a byte vector: the byte is appended.
#[verifier::external_body]
pub(crate) fn write_u8_to(out: &mut Vec<u8>, n: u8)
    ensures
        final(out)@ == old(out)@.push(n),
{
    let _ = out.write_u8(n);
}

/// `WriteBytesExt::write_u32::<NetworkEndian>` of byteorder on a byte
/// vector: the integer's four bytes are appended in network order.
#[verifier::external_body]
pub(crate) fn write_u32_to(out: &mut Vec<u8>, n: u32)
    ensures
        final(out)@ == old(out)@ + u32_be_bytes(n),
{
    let _ = out.write_u32::<NetworkEndian>(n);
}

/// Appends `bytes` to `writer`.
pub(crate) fn write_all(writer: &mut Vec<u8>, bytes: &[u8])
    ensures
        final(writer)@ == old(writer)@ + bytes@,
{
    writer.extend_from_slice(bytes);
    assert(writer@ =~= old(writer)@ + bytes@);
}

/// A byte source over a slice: the bytes from the read position on are still
/// to be read.
pub struct ByteReader<'a> {
    bytes: &'a [u8],
    pos: usize,
}

impl<'a> ByteReader<'a> {
    #[verifier::type_invariant]
    spec fn inv(self) -> bool {
        self.pos <= self.bytes@.len()
    }

    /// All the bytes of the source, read or not.
    pub closed spec fn source(&self) -> Seq<u8> {
        self.bytes@
    }

    /// How many bytes have been read.
    pub closed spec fn position(&self) -> nat {
        self.pos as nat
    }

    /// The bytes that are still to be read.
    pub open spec fn remaining(&self) -> Seq<u8> {
        self.source().skip(self.position() as int)
    }

    /// A reader at the start of `bytes`.
    pub fn new(bytes: &'a [u8]) -> (reader: Self)
        ensures
            reader.source() == bytes@,
            reader.position() == 0,
            reader.remaining() == bytes@,
    {
        ByteReader { bytes, pos: 0 }
    }

    /// The number of bytes that are still to be read.
    pub fn remaining_len(&self) -> (n: usize)
        ensures
            n == self.remaining().len(),
            self.position() <= self.source().len(),
    {
        proof {
            use_type_invariant(self);
        }
        self.bytes.len() - self.pos
    }

    /// The bytes that are still to be read, as a slice of the source.
    pub fn rest(&self) -> (rest: &'a [u8])
        ensures
            rest@ == self.remaining(),
    {
        proof {
            use_type_invariant(self);
        }
        slice_subrange(self.bytes, self.pos, self.bytes.len())
    }

    /// Reads one byte.
    pub fn read_u8(&mut self) -> (r: Result<u8, IOFailure>)
        ensures
            final(self).source() == old(self).source(),
            match r {
                Ok(b) => old(self).remaining().len() >= 1 && b == old(self).remaining()[0]
                    && final(self).remaining() == old(self).remaining().skip(1),
                Err(_) => old(self).remaining().len() < 1 && final(self).position() == old(
                    self,
                ).position(),
            },
    {
        match read_u8_from(self.rest()) {
            Some(b) => {
                self.advance(1);
                Ok(b)
            },
            None => Err(IOFailure::UnexpectedEof),
        }
    }

    /// Reads a 32-bit integer in network order.
    pub fn read_u32(&mut self) -> (r: Result<u32, IOFailure>)
        ensures
            final(self).source() == old(self).source(),
            match r {
                Ok(n) => old(self).remaining().len() >= 4 && n == u32_from_be(
                    old(self).remaining(),
                ) && final(self).remaining() == old(self).remaining().skip(4),
                Err(_) => old(self).remaining().len() < 4 && final(self).position() == old(
                    self,
                ).position(),
            },
    {
        match read_u32_from(self.rest()) {
            Some(n) => {
                self.advance(4);
                Ok(n)
            },
            None => Err(IOFailure::UnexpectedEof),
        }
    }

    /// Reads exactly `n` bytes.
    pub fn read_exact(&mut self, n: usize) -> (r: Result<Vec<u8>, IOFailure>)
        ensures
            final(self).source() == old(self).source(),
            match r {
                Ok(bytes) => old(self).remaining().len() >= n && bytes@ == old(
                    self,
                ).remaining().take(n as int) && final(self).remaining() == old(
                    self,
                ).remaining().skip(n as int),
                Err(_) => old(self).remaining().len() < n && final(self).position() == old(
                    self,
                ).position(),
            },
    {
        let rest = self.rest();
        if rest.len() < n {
            return Err(IOFailure::UnexpectedEof);
        }
        let bytes = slice_to_vec(slice_subrange(rest, 0, n));
        self.advance(n);
        Ok(bytes)
    }

    /// Reads and drops `count` bytes, or all that are left where they are fewer.
    pub fn discard(&mut self, count: usize)
        ensures
            final(self).source() == old(self).source(),
            final(self).remaining() == old(self).remaining().skip(
                if count <= old(self).remaining().len() {
                    count as int
                } else {
                    old(self).remaining().len() as int
                },
            ),
    {
        let left = self.remaining_len();
        if count <= left {
            self.advance(count);
        } else {
            self.advance(left);
        }
    }

    /// Moves the read position `n` bytes on.
    pub fn advance(&mut self, n: usize)
        requires
            n <= old(self).remaining().len(),
        ensures
            final(self).source() == old(self).source(),
            final(self).position() == old(self).position() + n,
            final(self).remaining() == old(self).remaining().skip(n as int),
    {
        let len = self.bytes.len();
        proof {
            use_type_invariant(&*self);
            assert(self.remaining().len() == len - self.pos);
        }
        self.pos = self.pos + n;
        assert(self.remaining() =~= old(self).remaining().skip(n as int));
    }
}

} // verus!
