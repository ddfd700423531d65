//! What holds between sending and receiving.
use vstd::prelude::*;
use super::codec::{Decode, Standalone, Wire};
use super::frame::{
    after_discard, frame_of, handshake_outcome, message_outcome, plan_of_id, standalone_outcome,
    Framed, Received, Send,
};
use super::{id_of_byte, protocol_name, Handshake, Id, Message};
use crate::stream::{lemma_u32_from_be_bytes, u32_be_bytes, u32_from_be};

verus! {

/// The parts of a frame, whatever follows it: its length field stands for
/// the payload's length and one, the identifier stands behind it, the
/// payload behind that.
pub proof fn lemma_frame_parts(id: u8, payload: Seq<u8>, rest: Seq<u8>)
    requires
        payload.len() + 1 <= u32::MAX,
    ensures
        frame_of(id, payload).len() == payload.len() + 5,
        u32_from_be(frame_of(id, payload) + rest) == payload.len() + 1,
        (frame_of(id, payload) + rest)[4] == id,
        (frame_of(id, payload) + rest).skip(5) == payload + rest,
        (frame_of(id, payload) + rest).take(payload.len() as int + 5) == frame_of(id, payload),
        (frame_of(id, payload) + rest).skip(payload.len() as int + 5) == rest,
{
    let len = (payload.len() + 1) as u32;
    let input = frame_of(id, payload) + rest;
    lemma_u32_from_be_bytes(len);
    assert(forall|i: int| 0 <= i < 4 ==> input[i] == u32_be_bytes(len)[i]);
    assert(u32_from_be(input) == u32_from_be(u32_be_bytes(len)));
    assert(input.skip(5) =~= payload + rest);
    assert(input.take(payload.len() as int + 5) =~= frame_of(id, payload));
    assert(input.skip(payload.len() as int + 5) =~= rest);
}

/// No two integers have the same bytes in network order.
pub proof fn lemma_u32_be_bytes_injective(a: u32, b: u32)
    requires
        u32_be_bytes(a) == u32_be_bytes(b),
    ensures
        a == b,
{
    lemma_u32_from_be_bytes(a);
    lemma_u32_from_be_bytes(b);
}

/// Every message type has an identifier byte of its own.
pub proof fn lemma_id_bytes(id: Id)
    requires
        id != Id::Unknown,
    ensures
        id.spec_byte() <= 8,
        id_of_byte(id.spec_byte()) == id,
{
}

/// A message that was sent is received: whatever follows its frame, the
/// frame is taken for a message, and nothing of what follows is read.
pub proof fn lemma_message_sent_is_received(m: Message, rest: Seq<u8>)
    requires
        m.fits(),
    ensures
        message_outcome(m.frame() + rest) == (Received::Present { consumed: m.frame().len() }),
        (m.frame() + rest).take(m.frame().len() as int) == m.frame(),
        (m.frame() + rest).skip(m.frame().len() as int) == rest,
{
    lemma_frame_parts(m.spec_id().spec_byte(), m.payload(), rest);
    lemma_id_bytes(m.spec_id());
    lemma_payload_len(m);
}

/// The payload of every message is read whole by the plan of its kind.
pub proof fn lemma_payload_len(m: Message)
    ensures
        match m {
            Message::Choke | Message::Unchoke | Message::Interested | Message::NotInterested => {
                m.payload().len() == 0
            },
            Message::Have(_) => m.payload().len() == 4,
            Message::Bitfield(b) => m.payload().len() == b.bits@.len(),
            Message::Request(_) | Message::Cancel(_) => m.payload().len() == 12,
            Message::Piece(p) => m.payload().len() == 8 + p.data@.len(),
        },
{
}

/// The frame tells the message: two messages with the same frame are equal.
pub proof fn lemma_frame_tells_message(a: Message, b: Message)
    requires
        a.fits(),
        a.frame() == b.frame(),
    ensures
        a@ == b@,
{
    let empty = Seq::<u8>::empty();
    lemma_payload_len(a);
    lemma_payload_len(b);
    lemma_frame_parts(a.spec_id().spec_byte(), a.payload(), empty);
    assert(a.frame() + empty =~= a.frame());
    assert(a.payload() + empty =~= a.payload());
    assert(a.frame().len() == b.frame().len());
    assert(b.payload().len() == a.payload().len()) by {
        assert(b.frame().len() == 4 + 1 + b.payload().len());
    }
    lemma_frame_parts(b.spec_id().spec_byte(), b.payload(), empty);
    assert(b.frame() + empty =~= b.frame());
    assert(b.payload() + empty =~= b.payload());
    assert(a.spec_id().spec_byte() == b.spec_id().spec_byte());
    lemma_id_bytes(a.spec_id());
    lemma_id_bytes(b.spec_id());
    assert(a.spec_id() == b.spec_id());
    let p = a.payload();
    assert(p == b.payload());
    match (a, b) {
        (Message::Have(x), Message::Have(y)) => {
            lemma_u32_be_bytes_injective(x.piece_index, y.piece_index);
        },
        (Message::Request(x), Message::Request(y)) => {
            assert(p.take(4) =~= u32_be_bytes(x.piece_index));
            assert(p.take(4) =~= u32_be_bytes(y.piece_index));
            assert(p.subrange(4, 8) =~= u32_be_bytes(x.offset));
            assert(p.subrange(4, 8) =~= u32_be_bytes(y.offset));
            assert(p.subrange(8, 12) =~= u32_be_bytes(x.data_length));
            assert(p.subrange(8, 12) =~= u32_be_bytes(y.data_length));
            lemma_u32_be_bytes_injective(x.piece_index, y.piece_index);
            lemma_u32_be_bytes_injective(x.offset, y.offset);
            lemma_u32_be_bytes_injective(x.data_length, y.data_length);
        },
        (Message::Cancel(x), Message::Cancel(y)) => {
            assert(p.take(4) =~= u32_be_bytes(x.piece_index));
            assert(p.take(4) =~= u32_be_bytes(y.piece_index));
            assert(p.subrange(4, 8) =~= u32_be_bytes(x.offset));
            assert(p.subrange(4, 8) =~= u32_be_bytes(y.offset));
            assert(p.subrange(8, 12) =~= u32_be_bytes(x.data_length));
            assert(p.subrange(8, 12) =~= u32_be_bytes(y.data_length));
            lemma_u32_be_bytes_injective(x.piece_index, y.piece_index);
            lemma_u32_be_bytes_injective(x.offset, y.offset);
            lemma_u32_be_bytes_injective(x.data_length, y.data_length);
        },
        (Message::Piece(x), Message::Piece(y)) => {
            assert(p.take(4) =~= u32_be_bytes(x.piece_index));
            assert(p.take(4) =~= u32_be_bytes(y.piece_index));
            assert(p.subrange(4, 8) =~= u32_be_bytes(x.offset));
            assert(p.subrange(4, 8) =~= u32_be_bytes(y.offset));
            assert(p.skip(8) =~= x.data@);
            assert(p.skip(8) =~= y.data@);
            lemma_u32_be_bytes_injective(x.piece_index, y.piece_index);
            lemma_u32_be_bytes_injective(x.offset, y.offset);
        },
        _ => {},
    }
}

/// Sending a message and receiving from the bytes that were written gives
/// an equal message: whatever message has the frame that receiving takes
/// from those bytes is equal to the one that was sent.
pub proof fn lemma_send_then_receive(m: Message, rest: Seq<u8>, received: Message)
    requires
        m.fits(),
        message_outcome(m.frame() + rest) matches Received::Present { consumed }
            && received.frame() == (m.frame() + rest).take(consumed as int),
    ensures
        received@ == m@,
{
    lemma_message_sent_is_received(m, rest);
    lemma_frame_tells_message(m, received);
}

/// A payload of one kind that was sent in a frame is received by that kind,
/// provided the kind reads a payload of that length whole.
pub proof fn lemma_standalone_sent_is_received<R: Decode + Standalone>(payload: R, rest: Seq<u8>)
    requires
        payload.wire().len() + 1 <= u32::MAX,
        R::plan(payload.wire().len()) == (payload.wire().len(), true),
    ensures
        standalone_outcome::<R>(frame_of(R::spec_id(), payload.wire()) + rest) == (
        Received::Present { consumed: payload.wire().len() + 5 }),
{
    lemma_frame_parts(R::spec_id(), payload.wire(), rest);
}

/// Each of the nine kinds reads its own payload whole.
pub proof fn lemma_kinds_read_whole(m: Message)
    ensures
        plan_of_id(m.spec_id().spec_byte(), m.payload().len()) == Some((m.payload().len(), true)),
{
    lemma_id_bytes(m.spec_id());
    lemma_payload_len(m);
}

/// Frames keep the stream aligned: whatever a whole frame holds, a message
/// of a known kind, a malformed payload, an unknown kind or nothing at all,
/// receiving never fails on it, and what is read together with the residual
/// is the frame exactly, so that the next frame begins right behind.
pub proof fn lemma_frames_stay_aligned(input: Seq<u8>)
    requires
        input.len() >= 4,
        input.len() >= 4 + u32_from_be(input),
    ensures
        match message_outcome(input) {
            Received::Failure => false,
            Received::Absent { read, residual } => residual matches Some(n) && read + n == 4
                + u32_from_be(input) && after_discard(read, residual, input) == 4 + u32_from_be(
                input,
            ),
            Received::Present { consumed } => consumed == 4 + u32_from_be(input),
        },
{
}

/// A frame of an unknown kind is skipped whole: with an identifier above 8,
/// receiving gives no message, and the residual is the whole payload, so
/// that what follows the residual is what follows the frame.
pub proof fn lemma_unknown_id_is_skipped(len: u32, id: u8, payload: Seq<u8>, rest: Seq<u8>)
    requires
        id > 8,
        payload.len() + 1 == len,
    ensures
        message_outcome(u32_be_bytes(len) + seq![id] + payload + rest) == (Received::Absent {
            read: 5,
            residual: Some(payload.len()),
        }),
        after_discard(5, Some(payload.len()), u32_be_bytes(len) + seq![id] + payload + rest) == 5
            + payload.len(),
        (u32_be_bytes(len) + seq![id] + payload + rest).skip(5 + payload.len() as int) == rest,
{
    let input = u32_be_bytes(len) + seq![id] + payload + rest;
    assert(input =~= frame_of(id, payload) + rest);
    lemma_frame_parts(id, payload, rest);
}

/// A length of zero is a keep-alive: receiving gives no message, reads the
/// four bytes of the length, and the residual is zero.
pub proof fn lemma_keep_alive(rest: Seq<u8>)
    ensures
        message_outcome(seq![0u8, 0u8, 0u8, 0u8] + rest) == (Received::Absent {
            read: 4,
            residual: Some(0),
        }),
        (seq![0u8, 0u8, 0u8, 0u8] + rest).skip(4) == rest,
{
    let input = seq![0u8, 0u8, 0u8, 0u8] + rest;
    assert(input[0] == 0 && input[1] == 0 && input[2] == 0 && input[3] == 0);
    assert(input.skip(4) =~= rest);
}

/// A handshake that was sent is received: whatever follows its 68 bytes,
/// they are taken for a handshake.
pub proof fn lemma_handshake_sent_is_received(h: Handshake, rest: Seq<u8>)
    requires
        h.spec_ext()@.len() == 8,
        h.spec_info_hash().len() == 20,
        h.spec_peer_id().len() == 20,
    ensures
        h.frame().len() == 68,
        handshake_outcome(h.frame() + rest) == (Received::Present { consumed: 68 }),
        (h.frame() + rest).take(68) == h.frame(),
{
    let input = h.frame() + rest;
    assert(input[0] == 19);
    assert(input.subrange(1, 20) =~= protocol_name());
    assert(input.take(68) =~= h.frame());
}

/// The bytes of a handshake tell its parts.
pub proof fn lemma_frame_tells_handshake(a: Handshake, b: Handshake)
    requires
        a.spec_ext()@.len() == 8,
        b.spec_ext()@.len() == 8,
        a.spec_info_hash().len() == 20,
        b.spec_info_hash().len() == 20,
        a.frame() == b.frame(),
    ensures
        a.spec_ext()@ == b.spec_ext()@,
        a.spec_info_hash() == b.spec_info_hash(),
        a.spec_peer_id() == b.spec_peer_id(),
{
    let f = a.frame();
    assert(f.subrange(20, 28) =~= a.spec_ext()@);
    assert(f.subrange(20, 28) =~= b.spec_ext()@);
    assert(f.subrange(28, 48) =~= a.spec_info_hash());
    assert(f.subrange(28, 48) =~= b.spec_info_hash());
    assert(f.skip(48) =~= a.spec_peer_id());
    assert(f.skip(48) =~= b.spec_peer_id());
}

/// Under another protocol's name there is no handshake: receiving reads the
/// name and gives nothing, not even a residual.
pub proof fn lemma_other_protocol_is_no_handshake(name: Seq<u8>, rest: Seq<u8>)
    requires
        name.len() <= u8::MAX,
        name != protocol_name(),
    ensures
        handshake_outcome(seq![name.len() as u8] + name + rest) == (Received::Absent {
            read: 1 + name.len(),
            residual: None,
        }),
{
    let input = seq![name.len() as u8] + name + rest;
    assert(input.subrange(1, 1 + name.len() as int) =~= name);
}

} // verus!
