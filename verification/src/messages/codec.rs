//! The payload codec: what a value is on the wire, field by field.
use vstd::prelude::*;
use super::{
    BTInt, Bitfield, Cancel, Choke, Have, Interested, NotInterested, Piece, Request, Reserved,
    Unchoke,
};
use crate::stream::{
    lemma_u32_be_bytes_from, u32_be_bytes, u32_from_be, write_all, write_u32_to, write_u8_to,
    ByteReader, IOFailure,
};

verus! {

/// A message kind that has an identifier byte of its own.
pub trait Standalone {
    /// The identifier byte of the kind.
    spec fn spec_id() -> u8;

    /// The identifier byte of the kind.
    fn id() -> (id: u8)
        ensures
            id == Self::spec_id(),
    ;
}

/// A value that has a form on the wire.
pub trait Wire {
    /// The bytes of the value on the wire, fields in the order in which they
    /// are declared, integers in network order.
    spec fn wire(&self) -> Seq<u8>;
}

/// A value that can be written in its wire form.
pub trait Encode: Wire {
    /// The number of bytes that the value is encoded into.
    fn size(&self) -> (n: usize)
        requires
            self.wire().len() <= usize::MAX,
        ensures
            n == self.wire().len(),
    ;

    /// The number of bytes that the value is encoded into, where a `usize`
    /// can hold it.
    fn checked_size(&self) -> (n: Option<usize>)
        ensures
            match n {
                Some(k) => k == self.wire().len(),
                None => self.wire().len() > usize::MAX,
            },
    ;

    /// Appends the value's wire form to `writer`.
    fn encode_to(&self, writer: &mut Vec<u8>)
        ensures
            final(writer)@ == old(writer)@ + self.wire(),
    ;

    /// The value's wire form.
    fn encode(&self) -> (bytes: Vec<u8>)
        ensures
            bytes@ == self.wire(),
    {
        let mut bytes: Vec<u8> = Vec::new();
        self.encode_to(&mut bytes);
        assert(bytes@ =~= self.wire());
        bytes
    }
}

/// The result of a read with the wire form in place of the value.
pub open spec fn wire_of<T: Wire>(r: Result<Option<T>, IOFailure>) -> Result<
    Option<Seq<u8>>,
    IOFailure,
> {
    match r {
        Ok(Some(v)) => Ok(Some(v.wire())),
        Ok(None) => Ok(None),
        Err(e) => Err(e),
    }
}

/// What a read that follows `plan` makes of `input`, as far as the value
/// goes: a transport failure where the source ends before the bytes that are
/// to be read; else the value that those bytes are the wire form of, or none.
pub open spec fn decodes_to(
    plan: (nat, bool),
    input: Seq<u8>,
    r: Result<Option<Seq<u8>>, IOFailure>,
) -> bool {
    if input.len() < plan.0 {
        r is Err
    } else {
        match r {
            Ok(Some(wire)) => plan.1 && wire == input.take(plan.0 as int),
            Ok(None) => !plan.1,
            Err(_) => false,
        }
    }
}

/// Where a read that follows `plan` leaves the frame and the source, unless
/// the transport failed: the bytes read are gone from both.
pub open spec fn decode_leaves(
    plan: (nat, bool),
    hint: nat,
    input: Seq<u8>,
    left: nat,
    rest: Seq<u8>,
) -> bool {
    input.len() >= plan.0 ==> plan.0 <= hint && left == hint - plan.0 && rest == input.skip(
        plan.0 as int,
    )
}

/// A value that can be read from its wire form.
pub trait Decode: Wire + Sized {
    /// What is read of a frame of which `hint` bytes are left: how many
    /// bytes, and whether they make a value.
    spec fn plan(hint: nat) -> (nat, bool);

    /// Reads a value from `reader`. `len_hint` is the number of bytes left
    /// of the current frame, and is lowered by the bytes read.
    fn decode_from<'a>(len_hint: &mut usize, reader: &mut ByteReader<'a>) -> (r: Result<
        Option<Self>,
        IOFailure,
    >)
        ensures
            final(reader).source() == old(reader).source(),
            decodes_to(Self::plan(*old(len_hint) as nat), old(reader).remaining(), wire_of(r)),
            r is Ok ==> decode_leaves(
                Self::plan(*old(len_hint) as nat),
                *old(len_hint) as nat,
                old(reader).remaining(),
                *final(len_hint) as nat,
                final(reader).remaining(),
            ),
    ;

    /// Reads a value from `bytes`, taken as one whole frame.
    fn decode(bytes: &[u8]) -> (r: Result<Option<Self>, IOFailure>)
        ensures
            decodes_to(Self::plan(bytes@.len()), bytes@, wire_of(r)),
    {
        let mut len: usize = bytes.len();
        let mut reader = ByteReader::new(bytes);
        Self::decode_from(&mut len, &mut reader)
    }

    /// Reads a value from `reader` and, where there is none, drops what is
    /// left of the frame, so that the source stands at the next frame.
    fn decode_or_discard_from<'a>(len_hint: &mut usize, reader: &mut ByteReader<'a>) -> (r:
        Result<Option<Self>, IOFailure>)
        ensures
            final(reader).source() == old(reader).source(),
            decodes_to(Self::plan(*old(len_hint) as nat), old(reader).remaining(), wire_of(r)),
            r is Ok ==> Self::plan(*old(len_hint) as nat).0 <= *old(len_hint)
                && *final(len_hint) == *old(len_hint) - Self::plan(*old(len_hint) as nat).0,
            r matches Ok(Some(_)) ==> final(reader).remaining() == old(reader).remaining().skip(
                Self::plan(*old(len_hint) as nat).0 as int,
            ),
            r matches Ok(None) ==> final(reader).remaining() == old(reader).remaining().skip(
                if *old(len_hint) <= old(reader).remaining().len() {
                    *old(len_hint) as int
                } else {
                    old(reader).remaining().len() as int
                },
            ),
    {
        let ghost input = reader.remaining();
        let ghost n = Self::plan(*len_hint as nat).0;
        let result = Self::decode_from(len_hint, reader);
        match result {
            Ok(None) => {
                let left = reader.remaining_len();
                discard_bytes(reader, *len_hint);
                proof {
                    let d = if *len_hint <= left {
                        *len_hint as int
                    } else {
                        left as int
                    };
                    assert(input.skip(n as int).skip(d) =~= input.skip(n + d));
                }
                Ok(None)
            },
            other => other,
        }
    }
}

impl<T: Wire> Wire for &T {
    open spec fn wire(&self) -> Seq<u8> {
        (**self).wire()
    }
}

impl<T: Encode> Encode for &T {
    fn size(&self) -> (n: usize) {
        (**self).size()
    }

    fn checked_size(&self) -> (n: Option<usize>) {
        (**self).checked_size()
    }

    fn encode_to(&self, writer: &mut Vec<u8>) {
        (**self).encode_to(writer)
    }
}

impl<T: Standalone> Standalone for &T {
    open spec fn spec_id() -> u8 {
        T::spec_id()
    }

    fn id() -> (id: u8) {
        T::id()
    }
}

/// The 32-bit field that a source holds `at` bytes in: its bytes in network
/// order are the four bytes there.
pub proof fn lemma_u32_fields(input: Seq<u8>, at: int)
    requires
        0 <= at,
        at + 4 <= input.len(),
    ensures
        u32_be_bytes(u32_from_be(input.skip(at))) == input.subrange(at, at + 4),
{
    let four = input.subrange(at, at + 4);
    lemma_u32_be_bytes_from(four);
    assert(u32_from_be(four) == u32_from_be(input.skip(at)));
}

/// What a field of fixed width reads: its `width` bytes where the frame has
/// them, else nothing.
pub open spec fn fixed_plan(hint: nat, width: nat) -> (nat, bool) {
    if hint >= width {
        (width, true)
    } else {
        (0, false)
    }
}

/// What a payload of fixed shape reads: its `width` bytes where the frame
/// has exactly them left, else nothing.
pub open spec fn exact_plan(hint: nat, width: nat) -> (nat, bool) {
    if hint == width {
        (width, true)
    } else {
        (0, false)
    }
}

impl Wire for () {
    open spec fn wire(&self) -> Seq<u8> {
        Seq::empty()
    }
}

impl Encode for () {
    fn size(&self) -> (n: usize) {
        0
    }

    fn checked_size(&self) -> (n: Option<usize>) {
        Some(0)
    }

    fn encode_to(&self, writer: &mut Vec<u8>) {
        assert(writer@ =~= old(writer)@ + self.wire());
    }
}

impl Decode for () {
    open spec fn plan(hint: nat) -> (nat, bool) {
        (0, true)
    }

    fn decode_from<'a>(len_hint: &mut usize, reader: &mut ByteReader<'a>) -> (r: Result<
        Option<Self>,
        IOFailure,
    >) {
        assert(reader.remaining().take(0) =~= Seq::<u8>::empty());
        assert(reader.remaining().skip(0) =~= reader.remaining());
        Ok(Some(()))
    }
}

impl Wire for u8 {
    open spec fn wire(&self) -> Seq<u8> {
        seq![*self]
    }
}

impl Encode for u8 {
    fn size(&self) -> (n: usize) {
        1
    }

    fn checked_size(&self) -> (n: Option<usize>) {
        Some(1)
    }

    fn encode_to(&self, writer: &mut Vec<u8>) {
        write_u8_to(writer, *self);
        assert(writer@ =~= old(writer)@ + self.wire());
    }
}

impl Decode for u8 {
    open spec fn plan(hint: nat) -> (nat, bool) {
        fixed_plan(hint, 1)
    }

    fn decode_from<'a>(len_hint: &mut usize, reader: &mut ByteReader<'a>) -> (r: Result<
        Option<Self>,
        IOFailure,
    >) {
        if *len_hint < 1 {
            assert(reader.remaining().skip(0) =~= reader.remaining());
            Ok(None)
        } else {
            match reader.read_u8() {
                Ok(b) => {
                    *len_hint = *len_hint - 1;
                    assert(old(reader).remaining().take(1) =~= b.wire());
                    Ok(Some(b))
                },
                Err(e) => Err(e),
            }
        }
    }
}

impl Wire for BTInt {
    open spec fn wire(&self) -> Seq<u8> {
        u32_be_bytes(*self)
    }
}

impl Encode for BTInt {
    fn size(&self) -> (n: usize) {
        4
    }

    fn checked_size(&self) -> (n: Option<usize>) {
        Some(4)
    }

    fn encode_to(&self, writer: &mut Vec<u8>) {
        write_u32_to(writer, *self);
    }
}

impl Decode for BTInt {
    open spec fn plan(hint: nat) -> (nat, bool) {
        fixed_plan(hint, 4)
    }

    fn decode_from<'a>(len_hint: &mut usize, reader: &mut ByteReader<'a>) -> (r: Result<
        Option<Self>,
        IOFailure,
    >) {
        if *len_hint < 4 {
            assert(reader.remaining().skip(0) =~= reader.remaining());
            Ok(None)
        } else {
            match reader.read_u32() {
                Ok(n) => {
                    *len_hint = *len_hint - 4;
                    proof {
                        let four = old(reader).remaining().take(4);
                        lemma_u32_be_bytes_from(four);
                        assert(u32_from_be(four) == u32_from_be(old(reader).remaining()));
                    }
                    Ok(Some(n))
                },
                Err(e) => Err(e),
            }
        }
    }
}

impl Wire for Vec<u8> {
    open spec fn wire(&self) -> Seq<u8> {
        self@
    }
}

impl Encode for Vec<u8> {
    fn size(&self) -> (n: usize) {
        self.len()
    }

    fn checked_size(&self) -> (n: Option<usize>) {
        Some(self.len())
    }

    fn encode_to(&self, writer: &mut Vec<u8>) {
        write_all(writer, self.as_slice());
    }
}

impl Decode for Vec<u8> {
    open spec fn plan(hint: nat) -> (nat, bool) {
        (hint, true)
    }

    fn decode_from<'a>(len_hint: &mut usize, reader: &mut ByteReader<'a>) -> (r: Result<
        Option<Self>,
        IOFailure,
    >) {
        match reader.read_exact(*len_hint) {
            Ok(bytes) => {
                *len_hint = 0;
                Ok(Some(bytes))
            },
            Err(e) => Err(e),
        }
    }
}

impl Standalone for Choke {
    open spec fn spec_id() -> u8 {
        0
    }

    fn id() -> (id: u8) {
        0
    }
}

impl Wire for Choke {
    open spec fn wire(&self) -> Seq<u8> {
        Seq::empty()
    }
}

impl Encode for Choke {
    fn size(&self) -> (n: usize) {
        0
    }

    fn checked_size(&self) -> (n: Option<usize>) {
        Some(0)
    }

    fn encode_to(&self, writer: &mut Vec<u8>) {
        assert(writer@ =~= old(writer)@ + self.wire());
    }
}

impl Decode for Choke {
    open spec fn plan(hint: nat) -> (nat, bool) {
        exact_plan(hint, 0)
    }

    fn decode_from<'a>(len_hint: &mut usize, reader: &mut ByteReader<'a>) -> (r: Result<
        Option<Self>,
        IOFailure,
    >) {
        assert(reader.remaining().take(0) =~= Choke.wire());
        assert(reader.remaining().skip(0) =~= reader.remaining());
        if *len_hint != 0 {
            Ok(None)
        } else {
            Ok(Some(Choke))
        }
    }
}

impl Standalone for Unchoke {
    open spec fn spec_id() -> u8 {
        1
    }

    fn id() -> (id: u8) {
        1
    }
}

impl Wire for Unchoke {
    open spec fn wire(&self) -> Seq<u8> {
        Seq::empty()
    }
}

impl Encode for Unchoke {
    fn size(&self) -> (n: usize) {
        0
    }

    fn checked_size(&self) -> (n: Option<usize>) {
        Some(0)
    }

    fn encode_to(&self, writer: &mut Vec<u8>) {
        assert(writer@ =~= old(writer)@ + self.wire());
    }
}

impl Decode for Unchoke {
    open spec fn plan(hint: nat) -> (nat, bool) {
        exact_plan(hint, 0)
    }

    fn decode_from<'a>(len_hint: &mut usize, reader: &mut ByteReader<'a>) -> (r: Result<
        Option<Self>,
        IOFailure,
    >) {
        assert(reader.remaining().take(0) =~= Unchoke.wire());
        assert(reader.remaining().skip(0) =~= reader.remaining());
        if *len_hint != 0 {
            Ok(None)
        } else {
            Ok(Some(Unchoke))
        }
    }
}

impl Standalone for Interested {
    open spec fn spec_id() -> u8 {
        2
    }

    fn id() -> (id: u8) {
        2
    }
}

impl Wire for Interested {
    open spec fn wire(&self) -> Seq<u8> {
        Seq::empty()
    }
}

impl Encode for Interested {
    fn size(&self) -> (n: usize) {
        0
    }

    fn checked_size(&self) -> (n: Option<usize>) {
        Some(0)
    }

    fn encode_to(&self, writer: &mut Vec<u8>) {
        assert(writer@ =~= old(writer)@ + self.wire());
    }
}

impl Decode for Interested {
    open spec fn plan(hint: nat) -> (nat, bool) {
        exact_plan(hint, 0)
    }

    fn decode_from<'a>(len_hint: &mut usize, reader: &mut ByteReader<'a>) -> (r: Result<
        Option<Self>,
        IOFailure,
    >) {
        assert(reader.remaining().take(0) =~= Interested.wire());
        assert(reader.remaining().skip(0) =~= reader.remaining());
        if *len_hint != 0 {
            Ok(None)
        } else {
            Ok(Some(Interested))
        }
    }
}

impl Standalone for NotInterested {
    open spec fn spec_id() -> u8 {
        3
    }

    fn id() -> (id: u8) {
        3
    }
}

impl Wire for NotInterested {
    open spec fn wire(&self) -> Seq<u8> {
        Seq::empty()
    }
}

impl Encode for NotInterested {
    fn size(&self) -> (n: usize) {
        0
    }

    fn checked_size(&self) -> (n: Option<usize>) {
        Some(0)
    }

    fn encode_to(&self, writer: &mut Vec<u8>) {
        assert(writer@ =~= old(writer)@ + self.wire());
    }
}

impl Decode for NotInterested {
    open spec fn plan(hint: nat) -> (nat, bool) {
        exact_plan(hint, 0)
    }

    fn decode_from<'a>(len_hint: &mut usize, reader: &mut ByteReader<'a>) -> (r: Result<
        Option<Self>,
        IOFailure,
    >) {
        assert(reader.remaining().take(0) =~= NotInterested.wire());
        assert(reader.remaining().skip(0) =~= reader.remaining());
        if *len_hint != 0 {
            Ok(None)
        } else {
            Ok(Some(NotInterested))
        }
    }
}

impl Standalone for Have {
    open spec fn spec_id() -> u8 {
        4
    }

    fn id() -> (id: u8) {
        4
    }
}

impl Wire for Have {
    open spec fn wire(&self) -> Seq<u8> {
        u32_be_bytes(self.piece_index)
    }
}

impl Encode for Have {
    fn size(&self) -> (n: usize) {
        4
    }

    fn checked_size(&self) -> (n: Option<usize>) {
        Some(4)
    }

    fn encode_to(&self, writer: &mut Vec<u8>) {
        self.piece_index.encode_to(writer);
    }
}

impl Decode for Have {
    open spec fn plan(hint: nat) -> (nat, bool) {
        exact_plan(hint, 4)
    }

    fn decode_from<'a>(len_hint: &mut usize, reader: &mut ByteReader<'a>) -> (r: Result<
        Option<Self>,
        IOFailure,
    >) {
        let ghost input = reader.remaining();
        assert(input.skip(0) =~= input);
        if *len_hint != 4 {
            return Ok(None);
        }
        let piece_index = match reader.read_u32() {
            Ok(v) => v,
            Err(e) => {
                return Err(e);
            },
        };
        *len_hint = 0;
        proof {
            lemma_u32_fields(input, 0);
            assert(u32_be_bytes(piece_index) =~= input.take(4));
        }
        Ok(Some(Have { piece_index }))
    }
}

impl Standalone for Bitfield {
    open spec fn spec_id() -> u8 {
        5
    }

    fn id() -> (id: u8) {
        5
    }
}

impl Wire for Bitfield {
    open spec fn wire(&self) -> Seq<u8> {
        self.bits@
    }
}

impl Encode for Bitfield {
    fn size(&self) -> (n: usize) {
        self.bits.len()
    }

    fn checked_size(&self) -> (n: Option<usize>) {
        Some(self.bits.len())
    }

    fn encode_to(&self, writer: &mut Vec<u8>) {
        self.bits.encode_to(writer);
    }
}

impl Decode for Bitfield {
    open spec fn plan(hint: nat) -> (nat, bool) {
        (hint, true)
    }

    fn decode_from<'a>(len_hint: &mut usize, reader: &mut ByteReader<'a>) -> (r: Result<
        Option<Self>,
        IOFailure,
    >) {
        match reader.read_exact(*len_hint) {
            Ok(bits) => {
                *len_hint = 0;
                Ok(Some(Bitfield { bits }))
            },
            Err(e) => Err(e),
        }
    }
}

impl Standalone for Request {
    open spec fn spec_id() -> u8 {
        6
    }

    fn id() -> (id: u8) {
        6
    }
}

impl Wire for Request {
    open spec fn wire(&self) -> Seq<u8> {
        u32_be_bytes(self.piece_index) + u32_be_bytes(self.offset) + u32_be_bytes(
            self.data_length,
        )
    }
}

impl Encode for Request {
    fn size(&self) -> (n: usize) {
        12
    }

    fn checked_size(&self) -> (n: Option<usize>) {
        Some(12)
    }

    fn encode_to(&self, writer: &mut Vec<u8>) {
        self.piece_index.encode_to(writer);
        self.offset.encode_to(writer);
        self.data_length.encode_to(writer);
        assert(writer@ =~= old(writer)@ + self.wire());
    }
}

impl Decode for Request {
    open spec fn plan(hint: nat) -> (nat, bool) {
        exact_plan(hint, 12)
    }

    fn decode_from<'a>(len_hint: &mut usize, reader: &mut ByteReader<'a>) -> (r: Result<
        Option<Self>,
        IOFailure,
    >) {
        let ghost input = reader.remaining();
        assert(input.skip(0) =~= input);
        if *len_hint != 12 {
            return Ok(None);
        }
        let piece_index = match reader.read_u32() {
            Ok(v) => v,
            Err(e) => {
                return Err(e);
            },
        };
        let offset = match reader.read_u32() {
            Ok(v) => v,
            Err(e) => {
                return Err(e);
            },
        };
        let data_length = match reader.read_u32() {
            Ok(v) => v,
            Err(e) => {
                return Err(e);
            },
        };
        *len_hint = 0;
        let value = Request { piece_index, offset, data_length };
        proof {
            lemma_u32_fields(input, 0);
            lemma_u32_fields(input, 4);
            lemma_u32_fields(input, 8);
            assert(input.skip(4).skip(4) =~= input.skip(8));
            assert(input.skip(8).skip(4) =~= input.skip(12));
            assert(value.wire() =~= input.take(12));
        }
        Ok(Some(value))
    }
}

impl Standalone for Piece {
    open spec fn spec_id() -> u8 {
        7
    }

    fn id() -> (id: u8) {
        7
    }
}

impl Wire for Piece {
    open spec fn wire(&self) -> Seq<u8> {
        u32_be_bytes(self.piece_index) + u32_be_bytes(self.offset) + self.data@
    }
}

impl Encode for Piece {
    fn size(&self) -> (n: usize) {
        8 + self.data.len()
    }

    fn checked_size(&self) -> (n: Option<usize>) {
        if self.data.len() <= usize::MAX - 8 {
            Some(8 + self.data.len())
        } else {
            None
        }
    }

    fn encode_to(&self, writer: &mut Vec<u8>) {
        self.piece_index.encode_to(writer);
        self.offset.encode_to(writer);
        self.data.encode_to(writer);
        assert(writer@ =~= old(writer)@ + self.wire());
    }
}

impl Decode for Piece {
    open spec fn plan(hint: nat) -> (nat, bool) {
        if hint >= 8 {
            (hint, true)
        } else {
            (0, false)
        }
    }

    fn decode_from<'a>(len_hint: &mut usize, reader: &mut ByteReader<'a>) -> (r: Result<
        Option<Self>,
        IOFailure,
    >) {
        let ghost input = reader.remaining();
        let ghost hint = *len_hint as int;
        assert(input.skip(0) =~= input);
        if *len_hint < 8 {
            return Ok(None);
        }
        let piece_index = match reader.read_u32() {
            Ok(v) => v,
            Err(e) => {
                return Err(e);
            },
        };
        let offset = match reader.read_u32() {
            Ok(v) => v,
            Err(e) => {
                return Err(e);
            },
        };
        let data = match reader.read_exact(*len_hint - 8) {
            Ok(v) => v,
            Err(e) => {
                return Err(e);
            },
        };
        *len_hint = 0;
        let value = Piece { piece_index, offset, data };
        proof {
            lemma_u32_fields(input, 0);
            lemma_u32_fields(input, 4);
            assert(input.skip(4).skip(4) =~= input.skip(8));
            assert(input.skip(8).skip(hint - 8) =~= input.skip(hint));
            assert(value.wire() =~= input.take(hint));
        }
        Ok(Some(value))
    }
}

impl Standalone for Cancel {
    open spec fn spec_id() -> u8 {
        8
    }

    fn id() -> (id: u8) {
        8
    }
}

impl Wire for Cancel {
    open spec fn wire(&self) -> Seq<u8> {
        u32_be_bytes(self.piece_index) + u32_be_bytes(self.offset) + u32_be_bytes(
            self.data_length,
        )
    }
}

impl Encode for Cancel {
    fn size(&self) -> (n: usize) {
        12
    }

    fn checked_size(&self) -> (n: Option<usize>) {
        Some(12)
    }

    fn encode_to(&self, writer: &mut Vec<u8>) {
        self.piece_index.encode_to(writer);
        self.offset.encode_to(writer);
        self.data_length.encode_to(writer);
        assert(writer@ =~= old(writer)@ + self.wire());
    }
}

impl Decode for Cancel {
    open spec fn plan(hint: nat) -> (nat, bool) {
        exact_plan(hint, 12)
    }

    fn decode_from<'a>(len_hint: &mut usize, reader: &mut ByteReader<'a>) -> (r: Result<
        Option<Self>,
        IOFailure,
    >) {
        let ghost input = reader.remaining();
        assert(input.skip(0) =~= input);
        if *len_hint != 12 {
            return Ok(None);
        }
        let piece_index = match reader.read_u32() {
            Ok(v) => v,
            Err(e) => {
                return Err(e);
            },
        };
        let offset = match reader.read_u32() {
            Ok(v) => v,
            Err(e) => {
                return Err(e);
            },
        };
        let data_length = match reader.read_u32() {
            Ok(v) => v,
            Err(e) => {
                return Err(e);
            },
        };
        *len_hint = 0;
        let value = Cancel { piece_index, offset, data_length };
        proof {
            lemma_u32_fields(input, 0);
            lemma_u32_fields(input, 4);
            lemma_u32_fields(input, 8);
            assert(input.skip(4).skip(4) =~= input.skip(8));
            assert(input.skip(8).skip(4) =~= input.skip(12));
            assert(value.wire() =~= input.take(12));
        }
        Ok(Some(value))
    }
}

impl Wire for Reserved {
    open spec fn wire(&self) -> Seq<u8> {
        self@
    }
}

impl Encode for Reserved {
    fn size(&self) -> (n: usize) {
        proof {
            self.lemma_len();
        }
        8
    }

    fn checked_size(&self) -> (n: Option<usize>) {
        proof {
            self.lemma_len();
        }
        Some(8)
    }

    fn encode_to(&self, writer: &mut Vec<u8>) {
        write_all(writer, self.inner());
    }
}

impl Decode for Reserved {
    open spec fn plan(hint: nat) -> (nat, bool) {
        fixed_plan(hint, 8)
    }

    fn decode_from<'a>(len_hint: &mut usize, reader: &mut ByteReader<'a>) -> (r: Result<
        Option<Self>,
        IOFailure,
    >) {
        if *len_hint < 8 {
            assert(reader.remaining().skip(0) =~= reader.remaining());
            Ok(None)
        } else {
            match reader.read_exact(8) {
                Ok(b) => {
                    *len_hint = *len_hint - 8;
                    let reserved = Reserved::new([b[0], b[1], b[2], b[3], b[4], b[5], b[6], b[7]]);
                    assert(reserved@ =~= b@);
                    Ok(Some(reserved))
                },
                Err(e) => Err(e),
            }
        }
    }
}

/// Reads and drops `count` bytes of `reader`, or all that are left where
/// they are fewer.
pub fn discard_bytes<'a>(reader: &mut ByteReader<'a>, count: usize)
    ensures
        final(reader).source() == old(reader).source(),
        final(reader).remaining() == old(reader).remaining().skip(
            if count <= old(reader).remaining().len() {
                count as int
            } else {
                old(reader).remaining().len() as int
            },
        ),
{
    reader.discard(count);
}

} // verus!
