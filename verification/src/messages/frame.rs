//! Framing: messages as they stand on the stream.
use vstd::prelude::*;
use super::codec::{Decode, Encode, Standalone, Wire};
use super::{
    id_of_byte, protocol_name, Bitfield, Cancel, Choke, Container, Handshake, Have, Id,
    Interested, Message, NotInterested, Piece, RecvContainer, Request, Reserved, SendContainer,
    Unchoke,
};
use crate::bencoded::encoding::bytes_equal;
use crate::stream::{
    lemma_u32_be_bytes_from, u32_be_bytes, u32_from_be, write_all, ByteReader, IOFailure,
};

verus! {

/// What receiving makes of the bytes of a source.
pub enum Received {
    /// The transport fails: the source ends inside what is to be read.
    Failure,
    /// There is no message. `read` bytes are read, and `residual` bytes of
    /// the frame are left unread; where nothing is known of what follows,
    /// there is no residual.
    Absent { read: nat, residual: Option<nat> },
    /// The first `consumed` bytes are a message.
    Present { consumed: nat },
}

/// A frame: the length of what follows as a 32-bit integer in network order,
/// the identifier byte, the payload.
pub open spec fn frame_of(id: u8, payload: Seq<u8>) -> Seq<u8> {
    u32_be_bytes((payload.len() + 1) as u32) + seq![id] + payload
}

/// A residual as a number of the model.
pub open spec fn residual_of(hint: Option<usize>) -> Option<nat> {
    match hint {
        Some(n) => Some(n as nat),
        None => None,
    }
}

/// Where the source stands once the residual is dropped: behind what was
/// read and the residual, or at its end where it ends before that. Without
/// a residual nothing is dropped.
pub open spec fn after_discard(read: nat, residual: Option<nat>, input: Seq<u8>) -> nat {
    match residual {
        None => read,
        Some(n) => if read + n <= input.len() {
            read + n
        } else {
            input.len()
        },
    }
}

/// What receiving makes of a frame whose length and identifier are read,
/// where the payload is read by `plan`: a message where the payload makes a
/// value and fills the frame exactly; else none, and what the plan did not
/// read of the frame is the residual.
pub open spec fn payload_outcome(plan: (nat, bool), len: nat, input: Seq<u8>) -> Received {
    if input.len() - 5 < plan.0 {
        Received::Failure
    } else if plan.1 && plan.0 + 1 == len {
        Received::Present { consumed: 4 + len }
    } else {
        Received::Absent { read: 5 + plan.0, residual: Some((len - 1 - plan.0) as nat) }
    }
}

/// What receiving makes of a frame whose length and identifier are read:
/// where no kind answers to the identifier, the whole payload is the
/// residual.
pub open spec fn body_outcome(plan: Option<(nat, bool)>, len: nat, input: Seq<u8>) -> Received {
    match plan {
        None => Received::Absent { read: 5, residual: Some((len - 1) as nat) },
        Some(p) => payload_outcome(p, len, input),
    }
}

/// How the payload of the kind with identifier `id` is read from a frame
/// that has `hint` bytes left; nothing for an identifier above 8.
pub open spec fn plan_of_id(id: u8, hint: nat) -> Option<(nat, bool)> {
    match id_of_byte(id) {
        Id::Choke => Some(Choke::plan(hint)),
        Id::Unchoke => Some(Unchoke::plan(hint)),
        Id::Interested => Some(Interested::plan(hint)),
        Id::NotInterested => Some(NotInterested::plan(hint)),
        Id::Have => Some(Have::plan(hint)),
        Id::Bitfield => Some(Bitfield::plan(hint)),
        Id::Request => Some(Request::plan(hint)),
        Id::Piece => Some(Piece::plan(hint)),
        Id::Cancel => Some(Cancel::plan(hint)),
        Id::Unknown => None,
    }
}

/// What receiving a message of any kind makes of `input`: a length of zero
/// is a keep-alive, which is no message.
pub open spec fn message_outcome(input: Seq<u8>) -> Received {
    if input.len() < 4 {
        Received::Failure
    } else {
        let len = u32_from_be(input) as nat;
        if len == 0 {
            Received::Absent { read: 4, residual: Some(0) }
        } else if input.len() < 5 {
            Received::Failure
        } else {
            body_outcome(plan_of_id(input[4], (len - 1) as nat), len, input)
        }
    }
}

/// What receiving a message of the one kind `R` makes of `input`.
pub open spec fn standalone_outcome<R: Decode + Standalone>(input: Seq<u8>) -> Received {
    if input.len() < 4 {
        Received::Failure
    } else {
        let len = u32_from_be(input) as nat;
        if len == 0 {
            Received::Absent { read: 4, residual: Some(0) }
        } else if input.len() < 5 {
            Received::Failure
        } else {
            body_outcome(
                if input[4] == R::spec_id() {
                    Some(R::plan((len - 1) as nat))
                } else {
                    None
                },
                len,
                input,
            )
        }
    }
}

/// The bytes of a handshake: the length of the protocol's name, the name,
/// the reserved bytes, the info hash, the peer's identifier.
pub open spec fn handshake_frame(reserved: Seq<u8>, info_hash: Seq<u8>, peer_id: Seq<u8>) -> Seq<
    u8,
> {
    seq![19u8] + protocol_name() + reserved + info_hash + peer_id
}

/// What receiving a handshake makes of `input`. Under another protocol's
/// name there is no handshake, and nothing is known of what follows the name.
pub open spec fn handshake_outcome(input: Seq<u8>) -> Received {
    if input.len() < 1 {
        Received::Failure
    } else {
        let n = input[0] as int;
        if input.len() < 1 + n {
            Received::Failure
        } else if input.subrange(1, 1 + n) != protocol_name() {
            Received::Absent { read: (1 + n) as nat, residual: None }
        } else if input.len() < 68 {
            Received::Failure
        } else {
            Received::Present { consumed: 68 }
        }
    }
}

/// A value that has a form on the stream.
pub trait Framed {
    /// The bytes of the value on the stream.
    spec fn frame(&self) -> Seq<u8>;
}

/// A message that can be sent to a peer.
pub trait Send: Framed {
    /// Whether the message fits a frame, whose length field has 32 bits.
    spec fn fits(&self) -> bool;

    /// Appends the message to `writer`, and flushes nothing.
    fn send_to(&self, writer: &mut Vec<u8>)
        requires
            self.fits(),
        ensures
            final(writer)@ == old(writer)@ + self.frame(),
    ;

    /// Appends the message to `writer` where it fits a frame, and says
    /// whether it did; a message that does not fit leaves `writer` as it was.
    fn try_send_to(&self, writer: &mut Vec<u8>) -> (sent: bool)
        ensures
            sent == self.fits(),
            sent ==> final(writer)@ == old(writer)@ + self.frame(),
            !sent ==> final(writer)@ == old(writer)@,
    ;
}

/// A message that can be received from a peer.
pub trait Recv: Framed + Sized {
    /// What receiving makes of the bytes of a source.
    spec fn outcome(input: Seq<u8>) -> Received;

    /// Receives one message from `reader`. Where there is none, `len_hint`
    /// tells the residual: the number of bytes that must be dropped from
    /// `reader` before the next frame, or nothing where that is unknown and
    /// the source is of no further use. What `len_hint` holds before the
    /// call does not matter.
    fn recv_from<'a>(len_hint: &mut Option<usize>, reader: &mut ByteReader<'a>) -> (r: Result<
        Option<Self>,
        IOFailure,
    >)
        ensures
            final(reader).source() == old(reader).source(),
            match Self::outcome(old(reader).remaining()) {
                Received::Failure => r is Err,
                Received::Absent { read, residual } => {
                    &&& r == Ok::<Option<Self>, IOFailure>(None)
                    &&& residual_of(*final(len_hint)) == residual
                    &&& read <= old(reader).remaining().len()
                    &&& final(reader).remaining() == old(reader).remaining().skip(read as int)
                },
                Received::Present { consumed } => {
                    &&& r matches Ok(Some(v)) && v.frame() == old(reader).remaining().take(
                        consumed as int,
                    )
                    &&& *final(len_hint) == Some(0usize)
                    &&& final(reader).remaining() == old(reader).remaining().skip(consumed as int)
                },
            },
    ;

    /// Receives one message from `reader` and, where there is none, drops
    /// the residual, so that `reader` stands at the next frame.
    fn recv_or_discard_from<'a>(reader: &mut ByteReader<'a>) -> (r: Result<Option<Self>, IOFailure>)
        ensures
            final(reader).source() == old(reader).source(),
            match Self::outcome(old(reader).remaining()) {
                Received::Failure => r is Err,
                Received::Absent { read, residual } => {
                    &&& r == Ok::<Option<Self>, IOFailure>(None)
                    &&& final(reader).remaining() == old(reader).remaining().skip(
                        after_discard(read, residual, old(reader).remaining()) as int,
                    )
                },
                Received::Present { consumed } => {
                    &&& r matches Ok(Some(v)) && v.frame() == old(reader).remaining().take(
                        consumed as int,
                    )
                    &&& final(reader).remaining() == old(reader).remaining().skip(consumed as int)
                },
            },
    {
        let ghost input = reader.remaining();
        let mut hint: Option<usize> = None;
        let result = Self::recv_from(&mut hint, reader);
        match result {
            Ok(None) => {
                match hint {
                    Some(residual) => {
                        let ghost read = Self::outcome(input)->read as int;
                        let left = reader.remaining_len();
                        reader.discard(residual);
                        proof {
                            let d = if residual <= left {
                                residual as int
                            } else {
                                left as int
                            };
                            assert(input.skip(read).skip(d) =~= input.skip(read + d));
                        }
                    },
                    None => {},
                }
                Ok(None)
            },
            other => other,
        }
    }
}

/// A message of its own that can be sent: it begins with its length.
pub trait SendMessage: Send {

}

/// A message of its own that can be received: it begins with its length.
pub trait RecvMessage: Recv {

}

/// Appends the frame of `payload` to `writer`: the payload's size and one
/// as the length, the identifier of its kind, the payload.
pub fn send_standalone<S: Encode + Standalone>(payload: &S, writer: &mut Vec<u8>)
    requires
        payload.wire().len() + 1 <= u32::MAX,
    ensures
        final(writer)@ == old(writer)@ + frame_of(S::spec_id(), payload.wire()),
{
    let size: usize = payload.size();
    let data_len: u32 = size as u32;
    (data_len + 1).encode_to(writer);
    S::id().encode_to(writer);
    payload.encode_to(writer);
    assert(writer@ =~= old(writer)@ + frame_of(S::spec_id(), payload.wire()));
}

/// Appends the frame of `payload` to `writer` where the payload fits a
/// frame, and says whether it did.
pub fn try_send_standalone<S: Encode + Standalone>(payload: &S, writer: &mut Vec<u8>) -> (sent:
    bool)
    ensures
        sent == (payload.wire().len() + 1 <= u32::MAX),
        sent ==> final(writer)@ == old(writer)@ + frame_of(S::spec_id(), payload.wire()),
        !sent ==> final(writer)@ == old(writer)@,
{
    match payload.checked_size() {
        Some(size) => {
            if size < 0xffff_ffff {
                send_standalone(payload, writer);
                true
            } else {
                false
            }
        },
        None => false,
    }
}

/// Reads the payload of a frame of which `len_hint` bytes are left behind
/// its identifier. The payload makes a message where it makes a value and
/// fills the frame exactly; else `len_hint` tells how many bytes of the
/// frame are left unread.
pub fn recv_payload<'a, R: Decode>(len_hint: &mut usize, reader: &mut ByteReader<'a>) -> (r: Result<
    Option<R>,
    IOFailure,
>)
    ensures
        final(reader).source() == old(reader).source(),
        ({
            let input = old(reader).remaining();
            let plan = R::plan(*old(len_hint) as nat);
            if input.len() < plan.0 {
                r is Err
            } else {
                &&& plan.0 <= *old(len_hint)
                &&& *final(len_hint) == *old(len_hint) - plan.0
                &&& final(reader).remaining() == input.skip(plan.0 as int)
                &&& if plan.1 && plan.0 == *old(len_hint) {
                    r matches Ok(Some(v)) && v.wire() == input.take(plan.0 as int)
                } else {
                    r == Ok::<Option<R>, IOFailure>(None)
                }
            }
        }),
{
    match R::decode_from(len_hint, reader) {
        Err(e) => Err(e),
        Ok(found) => {
            if *len_hint == 0 && found.is_some() {
                Ok(found)
            } else {
                Ok(None)
            }
        },
    }
}

/// Reads the length field of a frame and, unless it holds zero, the
/// identifier byte behind it.
pub fn recv_header<'a>(reader: &mut ByteReader<'a>) -> (r: Result<Option<(u32, u8)>, IOFailure>)
    ensures
        final(reader).source() == old(reader).source(),
        ({
            let input = old(reader).remaining();
            if input.len() < 4 {
                r is Err
            } else if u32_from_be(input) == 0 {
                r == Ok::<Option<(u32, u8)>, IOFailure>(None) && final(reader).remaining()
                    == input.skip(4)
            } else if input.len() < 5 {
                r is Err
            } else {
                r == Ok::<Option<(u32, u8)>, IOFailure>(Some((u32_from_be(input), input[4])))
                    && final(reader).remaining() == input.skip(5)
            }
        }),
{
    let ghost input = reader.remaining();
    let len = match reader.read_u32() {
        Ok(len) => len,
        Err(e) => {
            return Err(e);
        },
    };
    if len == 0 {
        return Ok(None);
    }
    match reader.read_u8() {
        Ok(id) => {
            assert(input.skip(4).skip(1) =~= input.skip(5));
            Ok(Some((len, id)))
        },
        Err(e) => Err(e),
    }
}

/// The first bytes of a source are the frame of the payload that its
/// length, its identifier and the bytes behind them make.
pub proof fn lemma_frame_taken(input: Seq<u8>, id: u8, payload: Seq<u8>)
    requires
        input.len() >= 5,
        u32_from_be(input) >= 1,
        input.len() >= 4 + u32_from_be(input),
        input[4] == id,
        payload == input.skip(5).take(u32_from_be(input) - 1),
    ensures
        frame_of(id, payload) == input.take(4 + u32_from_be(input)),
{
    let four = input.take(4);
    lemma_u32_be_bytes_from(four);
    assert(u32_from_be(four) == u32_from_be(input));
    assert(frame_of(id, payload) =~= input.take(4 + u32_from_be(input)));
}

/// Receives a message of the one kind `R`. Where there is none, `len_hint`
/// tells how many bytes of the frame are left unread.
pub fn recv_standalone<'a, R: Decode + Standalone>(
    len_hint: &mut Option<usize>,
    reader: &mut ByteReader<'a>,
) -> (r: Result<Option<R>, IOFailure>)
    ensures
        final(reader).source() == old(reader).source(),
        match standalone_outcome::<R>(old(reader).remaining()) {
            Received::Failure => r is Err,
            Received::Absent { read, residual } => {
                &&& r == Ok::<Option<R>, IOFailure>(None)
                &&& residual_of(*final(len_hint)) == residual
                &&& read <= old(reader).remaining().len()
                &&& final(reader).remaining() == old(reader).remaining().skip(read as int)
            },
            Received::Present { consumed } => {
                &&& r matches Ok(Some(v)) && frame_of(R::spec_id(), v.wire()) == old(
                    reader,
                ).remaining().take(consumed as int)
                &&& *final(len_hint) == Some(0usize)
                &&& final(reader).remaining() == old(reader).remaining().skip(consumed as int)
            },
        },
{
    let ghost input = reader.remaining();
    let (len, id) = match recv_header(reader) {
        Ok(Some(header)) => header,
        Ok(None) => {
            *len_hint = Some(0);
            return Ok(None);
        },
        Err(e) => {
            return Err(e);
        },
    };
    let mut left: usize = (len - 1) as usize;
    if id != R::id() {
        *len_hint = Some(left);
        return Ok(None);
    }
    let ghost n = R::plan(left as nat).0;
    let r = recv_payload::<R>(&mut left, reader);
    *len_hint = Some(left);
    proof {
        if r is Ok {
            assert(input.skip(5).skip(n as int) =~= input.skip(5 + n as int));
        }
        if r is Ok && r->Ok_0 is Some {
            lemma_frame_taken(input, id, r->Ok_0->Some_0.wire());
        }
    }
    r
}

impl<M: Wire + Standalone> Framed for Container<M> {
    open spec fn frame(&self) -> Seq<u8> {
        frame_of(M::spec_id(), self.0.wire())
    }
}

impl<S: Encode + Standalone> Send for Container<S> {
    open spec fn fits(&self) -> bool {
        self.0.wire().len() + 1 <= u32::MAX
    }

    fn send_to(&self, writer: &mut Vec<u8>) {
        send_standalone(&self.0, writer);
    }

    fn try_send_to(&self, writer: &mut Vec<u8>) -> (sent: bool) {
        try_send_standalone(&self.0, writer)
    }
}

impl<R: Decode + Standalone> Recv for Container<R> {
    open spec fn outcome(input: Seq<u8>) -> Received {
        standalone_outcome::<R>(input)
    }

    fn recv_from<'a>(len_hint: &mut Option<usize>, reader: &mut ByteReader<'a>) -> (r: Result<
        Option<Self>,
        IOFailure,
    >) {
        match recv_standalone::<R>(len_hint, reader) {
            Ok(Some(inner)) => Ok(Some(Container(inner))),
            Ok(None) => Ok(None),
            Err(e) => Err(e),
        }
    }
}

impl<S: Encode + Standalone> SendMessage for Container<S> {

}

impl<R: Decode + Standalone> RecvMessage for Container<R> {

}

impl<M: Wire + Standalone> Framed for SendContainer<M> {
    open spec fn frame(&self) -> Seq<u8> {
        frame_of(M::spec_id(), self.0.wire())
    }
}

impl<S: Encode + Standalone> Send for SendContainer<S> {
    open spec fn fits(&self) -> bool {
        self.0.wire().len() + 1 <= u32::MAX
    }

    fn send_to(&self, writer: &mut Vec<u8>) {
        send_standalone(&self.0, writer);
    }

    fn try_send_to(&self, writer: &mut Vec<u8>) -> (sent: bool) {
        try_send_standalone(&self.0, writer)
    }
}

impl<S: Encode + Standalone> SendMessage for SendContainer<S> {

}

impl<M: Wire + Standalone> Framed for RecvContainer<M> {
    open spec fn frame(&self) -> Seq<u8> {
        frame_of(M::spec_id(), self.0.wire())
    }
}

impl<R: Decode + Standalone> Recv for RecvContainer<R> {
    open spec fn outcome(input: Seq<u8>) -> Received {
        standalone_outcome::<R>(input)
    }

    fn recv_from<'a>(len_hint: &mut Option<usize>, reader: &mut ByteReader<'a>) -> (r: Result<
        Option<Self>,
        IOFailure,
    >) {
        match recv_standalone::<R>(len_hint, reader) {
            Ok(Some(inner)) => Ok(Some(RecvContainer(inner))),
            Ok(None) => Ok(None),
            Err(e) => Err(e),
        }
    }
}

impl<R: Decode + Standalone> RecvMessage for RecvContainer<R> {

}

impl Message {
    /// The payload of the message on the wire, without its identifier.
    pub open spec fn payload(&self) -> Seq<u8> {
        match self {
            Message::Choke => Seq::empty(),
            Message::Unchoke => Seq::empty(),
            Message::Interested => Seq::empty(),
            Message::NotInterested => Seq::empty(),
            Message::Have(have) => have.wire(),
            Message::Bitfield(bitfield) => bitfield.wire(),
            Message::Request(request) => request.wire(),
            Message::Piece(piece) => piece.wire(),
            Message::Cancel(cancel) => cancel.wire(),
        }
    }
}

impl Message {
    /// The number of bytes that the message is on the stream.
    pub fn size(&self) -> (n: usize)
        requires
            self.payload().len() + 5 <= usize::MAX,
        ensures
            n == self.frame().len(),
    {
        5 + match self {
            Message::Choke => 0,
            Message::Unchoke => 0,
            Message::Interested => 0,
            Message::NotInterested => 0,
            Message::Have(have) => have.size(),
            Message::Bitfield(bitfield) => bitfield.size(),
            Message::Request(request) => request.size(),
            Message::Piece(piece) => piece.size(),
            Message::Cancel(cancel) => cancel.size(),
        }
    }
}

impl Framed for Message {
    open spec fn frame(&self) -> Seq<u8> {
        frame_of(self.spec_id().spec_byte(), self.payload())
    }
}

impl Send for Message {
    open spec fn fits(&self) -> bool {
        self.payload().len() + 1 <= u32::MAX
    }

    fn send_to(&self, writer: &mut Vec<u8>) {
        match self {
            Message::Choke => send_standalone(&Choke, writer),
            Message::Unchoke => send_standalone(&Unchoke, writer),
            Message::Interested => send_standalone(&Interested, writer),
            Message::NotInterested => send_standalone(&NotInterested, writer),
            Message::Have(have) => send_standalone(have, writer),
            Message::Bitfield(bitfield) => send_standalone(bitfield, writer),
            Message::Request(request) => send_standalone(request, writer),
            Message::Piece(piece) => send_standalone(piece, writer),
            Message::Cancel(cancel) => send_standalone(cancel, writer),
        }
    }

    fn try_send_to(&self, writer: &mut Vec<u8>) -> (sent: bool) {
        match self {
            Message::Choke => try_send_standalone(&Choke, writer),
            Message::Unchoke => try_send_standalone(&Unchoke, writer),
            Message::Interested => try_send_standalone(&Interested, writer),
            Message::NotInterested => try_send_standalone(&NotInterested, writer),
            Message::Have(have) => try_send_standalone(have, writer),
            Message::Bitfield(bitfield) => try_send_standalone(bitfield, writer),
            Message::Request(request) => try_send_standalone(request, writer),
            Message::Piece(piece) => try_send_standalone(piece, writer),
            Message::Cancel(cancel) => try_send_standalone(cancel, writer),
        }
    }
}

impl Recv for Message {
    open spec fn outcome(input: Seq<u8>) -> Received {
        message_outcome(input)
    }

    fn recv_from<'a>(len_hint: &mut Option<usize>, reader: &mut ByteReader<'a>) -> (r: Result<
        Option<Self>,
        IOFailure,
    >) {
        let ghost input = reader.remaining();
        let (len, id) = match recv_header(reader) {
            Ok(Some(header)) => header,
            Ok(None) => {
                *len_hint = Some(0);
                return Ok(None);
            },
            Err(e) => {
                return Err(e);
            },
        };
        let mut left: usize = (len - 1) as usize;
        let ghost n = match plan_of_id(id, left as nat) {
            Some(plan) => plan.0,
            None => 0,
        };
        let r = match Id::of_byte(id) {
            Id::Choke => match recv_payload::<Choke>(&mut left, reader) {
                Ok(Some(_)) => Ok(Some(Message::Choke)),
                Ok(None) => Ok(None),
                Err(e) => Err(e),
            },
            Id::Unchoke => match recv_payload::<Unchoke>(&mut left, reader) {
                Ok(Some(_)) => Ok(Some(Message::Unchoke)),
                Ok(None) => Ok(None),
                Err(e) => Err(e),
            },
            Id::Interested => match recv_payload::<Interested>(&mut left, reader) {
                Ok(Some(_)) => Ok(Some(Message::Interested)),
                Ok(None) => Ok(None),
                Err(e) => Err(e),
            },
            Id::NotInterested => match recv_payload::<NotInterested>(&mut left, reader) {
                Ok(Some(_)) => Ok(Some(Message::NotInterested)),
                Ok(None) => Ok(None),
                Err(e) => Err(e),
            },
            Id::Have => match recv_payload::<Have>(&mut left, reader) {
                Ok(Some(have)) => Ok(Some(Message::Have(have))),
                Ok(None) => Ok(None),
                Err(e) => Err(e),
            },
            Id::Bitfield => match recv_payload::<Bitfield>(&mut left, reader) {
                Ok(Some(bitfield)) => Ok(Some(Message::Bitfield(bitfield))),
                Ok(None) => Ok(None),
                Err(e) => Err(e),
            },
            Id::Request => match recv_payload::<Request>(&mut left, reader) {
                Ok(Some(request)) => Ok(Some(Message::Request(request))),
                Ok(None) => Ok(None),
                Err(e) => Err(e),
            },
            Id::Piece => match recv_payload::<Piece>(&mut left, reader) {
                Ok(Some(piece)) => Ok(Some(Message::Piece(piece))),
                Ok(None) => Ok(None),
                Err(e) => Err(e),
            },
            Id::Cancel => match recv_payload::<Cancel>(&mut left, reader) {
                Ok(Some(cancel)) => Ok(Some(Message::Cancel(cancel))),
                Ok(None) => Ok(None),
                Err(e) => Err(e),
            },
            Id::Unknown => Ok(None),
        };
        *len_hint = Some(left);
        proof {
            if r is Ok {
                assert(input.skip(5).skip(n as int) =~= input.skip(5 + n as int));
                assert(input.skip(5).skip(0) =~= input.skip(5));
            }
            if r is Ok && r->Ok_0 is Some {
                lemma_frame_taken(input, id, r->Ok_0->Some_0.payload());
            }
        }
        r
    }
}

impl SendMessage for Message {

}

impl RecvMessage for Message {

}

impl Framed for Handshake {
    open spec fn frame(&self) -> Seq<u8> {
        handshake_frame(self.spec_ext()@, self.spec_info_hash(), self.spec_peer_id())
    }
}

impl Send for Handshake {
    open spec fn fits(&self) -> bool {
        true
    }

    fn send_to(&self, writer: &mut Vec<u8>) {
        let name = Handshake::protocol();
        19u8.encode_to(writer);
        write_all(writer, name.as_slice());
        write_all(writer, self.ext().inner());
        write_all(writer, self.info_hash());
        write_all(writer, self.peer_id());
        assert(writer@ =~= old(writer)@ + self.frame());
    }

    fn try_send_to(&self, writer: &mut Vec<u8>) -> (sent: bool) {
        self.send_to(writer);
        true
    }
}

impl Recv for Handshake {
    open spec fn outcome(input: Seq<u8>) -> Received {
        handshake_outcome(input)
    }

    fn recv_from<'a>(len_hint: &mut Option<usize>, reader: &mut ByteReader<'a>) -> (r: Result<
        Option<Self>,
        IOFailure,
    >) {
        let ghost input = reader.remaining();
        let n: usize = match reader.read_u8() {
            Ok(n) => n as usize,
            Err(e) => {
                return Err(e);
            },
        };
        let protocol = match reader.read_exact(n) {
            Ok(protocol) => protocol,
            Err(e) => {
                return Err(e);
            },
        };
        assert(input.skip(1).take(n as int) =~= input.subrange(1, 1 + n));
        assert(input.skip(1).skip(n as int) =~= input.skip(1 + n));
        let name = Handshake::protocol();
        if !bytes_equal(protocol.as_slice(), name.as_slice()) {
            // Under another protocol nothing is known of what follows.
            *len_hint = None;
            return Ok(None);
        }
        let reserved = match reader.read_exact(8) {
            Ok(b) => Reserved::new([b[0], b[1], b[2], b[3], b[4], b[5], b[6], b[7]]),
            Err(e) => {
                return Err(e);
            },
        };
        let info_hash = match reader.read_exact(20) {
            Ok(bytes) => bytes,
            Err(e) => {
                return Err(e);
            },
        };
        let peer_id = match reader.read_exact(20) {
            Ok(bytes) => bytes,
            Err(e) => {
                return Err(e);
            },
        };
        proof {
            assert(input.skip(20).skip(8) =~= input.skip(28));
            assert(input.skip(28).skip(20) =~= input.skip(48));
            assert(input.skip(48).skip(20) =~= input.skip(68));
            assert(reserved@ =~= input.skip(20).take(8));
            assert(handshake_frame(reserved@, info_hash@, peer_id@) =~= input.take(68));
        }
        *len_hint = Some(0);
        match Handshake::new(reserved, info_hash, peer_id) {
            Some(handshake) => Ok(Some(handshake)),
            None => Ok(None),
        }
    }
}


} // verus!
