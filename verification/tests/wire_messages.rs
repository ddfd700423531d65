use bitrain_core::messages::codec::{Decode, Encode, Standalone};
use bitrain_core::messages::frame::{recv_header, recv_payload, send_standalone, Recv, Send};
use bitrain_core::messages::{
    Bitfield, Cancel, Choke, Container, Handshake, Have, Id, Interested, Message, NotInterested,
    Piece, RecvContainer, Request, Reserved, SendContainer, Unchoke,
};
use bitrain_core::peer::Peer;
use bitrain_core::stream::{ByteReader, IOFailure};
use std::fmt::Debug;

fn check_encode_decode<S: Encode + Decode + PartialEq + Debug>(data: S) {
    let bytes = data.encode();
    assert_eq!(bytes.len(), data.size());
    let received = S::decode(&bytes).expect("decoding error");
    assert_eq!(Some(data), received);
}

fn check_container<S: Encode + Standalone + Decode + PartialEq + Debug>(data: S) {
    let mut buf = vec![];
    Container(&data).send_to(&mut buf);
    let mut reader = ByteReader::new(&buf);
    let received =
        Container::<S>::recv_or_discard_from(&mut reader).unwrap().map(Container::into_inner);
    assert_eq!(Some(data), received);
    assert_eq!(reader.remaining_len(), 0);
}

fn check_send_recv<M: Send + Recv + PartialEq + Debug>(message: M) {
    let mut buf = vec![];
    message.send_to(&mut buf);
    let mut reader = ByteReader::new(&buf);
    let mut hint = None;
    let received = M::recv_from(&mut hint, &mut reader).unwrap();
    assert_eq!(Some(message), received);
    assert_eq!(hint, Some(0));
    assert_eq!(reader.remaining_len(), 0);
}

fn recv_message(bytes: &[u8]) -> (Result<Option<Message>, IOFailure>, usize) {
    let mut reader = ByteReader::new(bytes);
    let r = Message::recv_or_discard_from(&mut reader);
    (r, bytes.len() - reader.remaining_len())
}

fn sample_request() -> Request {
    Request { piece_index: 0x0102_0304, offset: 0x4000, data_length: 0xffff_ffff }
}

fn sample_piece() -> Piece {
    Piece { piece_index: 7, offset: 0x0001_0000, data: vec![0xde, 0xad, 0xbe, 0xef, 0x00] }
}

#[test]
fn encode_decode() {
    check_encode_decode(());
    check_encode_decode(Choke);
    check_encode_decode(Unchoke);
    check_encode_decode(Interested);
    check_encode_decode(NotInterested);
    check_encode_decode(Have::default());
    check_encode_decode(Bitfield::default());
    check_encode_decode(Request::default());
    check_encode_decode(Piece::default());
    check_encode_decode(Cancel::default());
    check_encode_decode(Have { piece_index: 0xdead_beef });
    check_encode_decode(Bitfield { bits: vec![0xff, 0x00, 0x81] });
    check_encode_decode(sample_request());
    check_encode_decode(sample_piece());
    check_encode_decode(Cancel { piece_index: 1, offset: 2, data_length: 3 });
    check_encode_decode(0x7fu8);
    check_encode_decode(0x0a0b_0c0du32);
    check_encode_decode(vec![1u8, 2, 3]);
    check_encode_decode(Reserved::new([0, 1, 2, 3, 4, 0x10, 6, 7]));
}

#[test]
fn container() {
    check_container(Choke);
    check_container(Unchoke);
    check_container(Interested);
    check_container(NotInterested);
    check_container(Have::default());
    check_container(Bitfield::default());
    check_container(Request::default());
    check_container(Piece::default());
    check_container(Cancel::default());
    check_container(Have { piece_index: 99 });
    check_container(Bitfield { bits: vec![0xaa; 40] });
    check_container(sample_request());
    check_container(sample_piece());
    check_container(Cancel { piece_index: 9, offset: 8, data_length: 7 });
}

#[test]
fn send_recv() {
    check_send_recv(Message::Choke);
    check_send_recv(Message::Unchoke);
    check_send_recv(Message::Interested);
    check_send_recv(Message::NotInterested);
    check_send_recv(Message::Have(Default::default()));
    check_send_recv(Message::Bitfield(Default::default()));
    check_send_recv(Message::Request(Default::default()));
    check_send_recv(Message::Piece(Default::default()));
    check_send_recv(Message::Cancel(Default::default()));
}

#[test]
fn send_recv_with_values() {
    check_send_recv(Message::Have(Have { piece_index: 0x0102_0304 }));
    check_send_recv(Message::Bitfield(Bitfield { bits: vec![0x80, 0x01, 0xff] }));
    check_send_recv(Message::Request(sample_request()));
    check_send_recv(Message::Piece(sample_piece()));
    check_send_recv(Message::Cancel(Cancel { piece_index: 3, offset: 2, data_length: 1 }));
}

#[test]
fn vise_versa() {
    check_send_recv(Container(Choke));
    check_send_recv(Container(Unchoke));
    check_send_recv(Container(Interested));
    check_send_recv(Container(NotInterested));
    check_send_recv(Container(Have::default()));
    check_send_recv(Container(Bitfield::default()));
    check_send_recv(Container(Request::default()));
    check_send_recv(Container(Piece::default()));
    check_send_recv(Container(Cancel::default()));
    check_send_recv(Handshake::default());
}

#[test]
fn frames_have_the_documented_bytes() {
    let mut buf = vec![];
    Message::Choke.send_to(&mut buf);
    assert_eq!(buf, vec![0, 0, 0, 1, 0]);

    let mut buf = vec![];
    Message::Have(Have { piece_index: 0x0102_0304 }).send_to(&mut buf);
    assert_eq!(buf, vec![0, 0, 0, 5, 4, 1, 2, 3, 4]);

    let mut buf = vec![];
    Message::Bitfield(Bitfield { bits: vec![0xf0, 0x0f] }).send_to(&mut buf);
    assert_eq!(buf, vec![0, 0, 0, 3, 5, 0xf0, 0x0f]);

    let mut buf = vec![];
    Message::Request(Request { piece_index: 1, offset: 0x4000, data_length: 0x0100_0000 })
        .send_to(&mut buf);
    assert_eq!(buf, vec![0, 0, 0, 13, 6, 0, 0, 0, 1, 0, 0, 0x40, 0, 1, 0, 0, 0]);

    let mut buf = vec![];
    Message::Piece(Piece { piece_index: 2, offset: 3, data: vec![9, 8, 7] }).send_to(&mut buf);
    assert_eq!(buf, vec![0, 0, 0, 12, 7, 0, 0, 0, 2, 0, 0, 0, 3, 9, 8, 7]);

    let mut buf = vec![];
    Message::Cancel(Cancel { piece_index: 0xffff_ffff, offset: 0, data_length: 255 })
        .send_to(&mut buf);
    assert_eq!(buf, vec![0, 0, 0, 13, 8, 0xff, 0xff, 0xff, 0xff, 0, 0, 0, 0, 0, 0, 0, 255]);
}

#[test]
fn send_appends_and_does_not_overwrite() {
    let mut buf = vec![0xaa];
    Message::Unchoke.send_to(&mut buf);
    Container(Interested).send_to(&mut buf);
    send_standalone(&NotInterested, &mut buf);
    assert_eq!(buf, vec![0xaa, 0, 0, 0, 1, 1, 0, 0, 0, 1, 2, 0, 0, 0, 1, 3]);
}

#[test]
fn integers_are_in_network_order() {
    assert_eq!(0x0102_0304u32.encode(), vec![1, 2, 3, 4]);
    assert_eq!(u32::decode(&[0xff, 0xfe, 0xfd, 0xfc]), Ok(Some(0xfffe_fdfc)));
    assert_eq!(u32::decode(&[0, 0, 1, 0x0b]), Ok(Some(267)));
    assert_eq!(0xabu8.encode(), vec![0xab]);
    assert_eq!(u8::decode(&[0x42]), Ok(Some(0x42)));
}

#[test]
fn unknown_id_is_skipped_and_the_next_frame_is_aligned() {
    let mut bytes = vec![0, 0, 0, 5, 200, 0xde, 0xad, 0xbe, 0xef];
    Message::Have(Have { piece_index: 3 }).send_to(&mut bytes);
    let mut reader = ByteReader::new(&bytes);
    assert_eq!(Message::recv_or_discard_from(&mut reader), Ok(None));
    assert_eq!(reader.remaining_len(), 9);
    assert_eq!(Message::recv_or_discard_from(&mut reader), Ok(Some(Message::Have(Have { piece_index: 3 }))));
    assert_eq!(reader.remaining_len(), 0);
}

#[test]
fn receiving_reports_the_residual() {
    let check = |bytes: &[u8], read: usize, residual: Option<usize>| {
        let mut reader = ByteReader::new(bytes);
        let mut hint = Some(77);
        assert_eq!(Message::recv_from(&mut hint, &mut reader), Ok(None));
        assert_eq!(hint, residual);
        assert_eq!(bytes.len() - reader.remaining_len(), read);
    };
    // keep-alive
    check(&[0, 0, 0, 0, 9, 9], 4, Some(0));
    // unknown identifier
    check(&[0, 0, 0, 5, 200, 1, 2, 3, 4, 9], 5, Some(4));
    check(&[0, 0, 0, 1, 9], 5, Some(0));
    // a have with a payload of six bytes
    check(&[0, 0, 0, 7, 4, 1, 2, 3, 4, 5, 6, 9], 5, Some(6));
    // a have with a payload of two bytes
    check(&[0, 0, 0, 3, 4, 1, 2, 9], 5, Some(2));
    // a request with a payload of nine bytes
    check(&[0, 0, 0, 10, 6, 1, 1, 1, 1, 2, 2, 2, 2, 3, 9], 5, Some(9));
    // a cancel with a payload of thirteen bytes
    check(&[0, 0, 0, 14, 8, 1, 1, 1, 1, 2, 2, 2, 2, 3, 3, 3, 3, 4, 9], 5, Some(13));
    // a choke with a payload
    check(&[0, 0, 0, 3, 0, 1, 2, 9], 5, Some(2));
    // a piece with a payload of seven bytes
    check(&[0, 0, 0, 8, 7, 1, 1, 1, 1, 2, 2, 2, 9], 5, Some(7));

    // another kind than the one asked for: the residual is the payload
    let mut reader = ByteReader::new(&[0, 0, 0, 5, 4, 0, 0, 0, 1]);
    let mut hint = None;
    assert_eq!(Container::<Request>::recv_from(&mut hint, &mut reader), Ok(None));
    assert_eq!(hint, Some(4));
    assert_eq!(reader.remaining_len(), 4);
    let mut reader = ByteReader::new(&[0, 0, 0, 13, 4, 0, 0, 0, 1]);
    let mut hint = None;
    assert_eq!(Container::<Request>::recv_from(&mut hint, &mut reader), Ok(None));
    assert_eq!(hint, Some(12));

    // another protocol: no residual
    let mut reader = ByteReader::new(&[3, b'f', b't', b'p', 1, 2, 3]);
    let mut hint = Some(5);
    assert_eq!(Handshake::recv_from(&mut hint, &mut reader), Ok(None));
    assert_eq!(hint, None);
    assert_eq!(reader.rest(), &[1, 2, 3]);
}

#[test]
fn keep_alive_is_no_message() {
    let (r, consumed) = recv_message(&[0, 0, 0, 0]);
    assert_eq!(r, Ok(None));
    assert_eq!(consumed, 4);
    let (r, consumed) = recv_message(&[0, 0, 0, 0, 0, 0, 0, 1, 1]);
    assert_eq!(r, Ok(None));
    assert_eq!(consumed, 4);
    let mut reader = ByteReader::new(&[0, 0, 0, 0]);
    assert_eq!(Container::<Have>::recv_or_discard_from(&mut reader), Ok(None));
    assert_eq!(reader.remaining_len(), 0);
}

#[test]
fn malformed_frames_are_dropped_whole() {
    // a have with five bytes of payload
    let (r, consumed) = recv_message(&[0, 0, 0, 6, 4, 1, 2, 3, 4, 5, 0xff]);
    assert_eq!(r, Ok(None));
    assert_eq!(consumed, 10);
    // a have with three bytes of payload
    let (r, consumed) = recv_message(&[0, 0, 0, 4, 4, 1, 2, 3, 0xff]);
    assert_eq!(r, Ok(None));
    assert_eq!(consumed, 8);
    // a request with a payload of six bytes
    let (r, consumed) = recv_message(&[0, 0, 0, 7, 6, 1, 2, 3, 4, 5, 6, 0xff]);
    assert_eq!(r, Ok(None));
    assert_eq!(consumed, 11);
    // a choke with a payload
    let (r, consumed) = recv_message(&[0, 0, 0, 3, 0, 9, 9, 0xff]);
    assert_eq!(r, Ok(None));
    assert_eq!(consumed, 7);
    // a piece without its two integers
    let (r, consumed) = recv_message(&[0, 0, 0, 6, 7, 0, 0, 0, 1, 2, 0xff]);
    assert_eq!(r, Ok(None));
    assert_eq!(consumed, 10);
}

#[test]
fn container_drops_a_frame_of_another_kind() {
    let mut bytes = vec![];
    Message::Request(sample_request()).send_to(&mut bytes);
    Message::Have(Have { piece_index: 5 }).send_to(&mut bytes);
    let mut reader = ByteReader::new(&bytes);
    assert_eq!(Container::<Have>::recv_or_discard_from(&mut reader), Ok(None));
    assert_eq!(
        Container::<Have>::recv_or_discard_from(&mut reader),
        Ok(Some(Container(Have { piece_index: 5 })))
    );
    assert_eq!(reader.remaining_len(), 0);
}

#[test]
fn a_source_that_ends_early_fails() {
    assert_eq!(recv_message(&[]).0, Err(IOFailure::UnexpectedEof));
    assert_eq!(recv_message(&[0, 0, 0]).0, Err(IOFailure::UnexpectedEof));
    assert_eq!(recv_message(&[0, 0, 0, 5]).0, Err(IOFailure::UnexpectedEof));
    assert_eq!(recv_message(&[0, 0, 0, 5, 4, 1, 2, 3]).0, Err(IOFailure::UnexpectedEof));
    assert_eq!(recv_message(&[0, 0, 0, 9, 5, 1, 2]).0, Err(IOFailure::UnexpectedEof));
    let mut reader = ByteReader::new(&[19, b'B', b'i', b't']);
    assert_eq!(Handshake::recv_or_discard_from(&mut reader), Err(IOFailure::UnexpectedEof));
}

#[test]
fn an_unknown_frame_cut_short_is_dropped_as_far_as_it_goes() {
    let (r, consumed) = recv_message(&[0, 0, 0, 5, 200, 1, 2]);
    assert_eq!(r, Ok(None));
    assert_eq!(consumed, 7);
}

#[test]
fn handshake_has_the_documented_bytes() {
    let reserved = Reserved::new([0, 0, 0, 0, 0, 0x10, 0, 1]);
    let handshake = Handshake::new(reserved, vec![0xaa; 20], vec![0xbb; 20]).unwrap();
    let mut buf = vec![];
    handshake.send_to(&mut buf);
    let mut expected = vec![19];
    expected.extend_from_slice(b"BitTorrent protocol");
    expected.extend_from_slice(&[0, 0, 0, 0, 0, 0x10, 0, 1]);
    expected.extend_from_slice(&[0xaa; 20]);
    expected.extend_from_slice(&[0xbb; 20]);
    assert_eq!(buf, expected);
    assert_eq!(buf.len(), 68);

    let mut reader = ByteReader::new(&buf);
    let received = Handshake::recv_or_discard_from(&mut reader).unwrap().unwrap();
    assert_eq!(received, handshake);
    assert!(received.ext().supports_extensions());
    assert_eq!(received.ext().inner(), &[0, 0, 0, 0, 0, 0x10, 0, 1]);
    assert_eq!(received.info_hash(), &[0xaa; 20]);
    assert_eq!(received.peer_id(), &[0xbb; 20]);
    assert_eq!(reader.remaining_len(), 0);
    assert_eq!(Handshake::protocol().to_vec(), b"BitTorrent protocol".to_vec());
}

#[test]
fn handshake_under_another_protocol_is_no_message() {
    let mut bytes = vec![19];
    bytes.extend_from_slice(b"BitTorrent protocoL");
    bytes.extend_from_slice(&[0; 48]);
    let mut reader = ByteReader::new(&bytes);
    assert_eq!(Handshake::recv_or_discard_from(&mut reader), Ok(None));

    let mut bytes = vec![4];
    bytes.extend_from_slice(b"HTTP");
    let mut reader = ByteReader::new(&bytes);
    assert_eq!(Handshake::recv_or_discard_from(&mut reader), Ok(None));
}

#[test]
fn handshake_wants_twenty_bytes_twice() {
    assert!(Handshake::new(Reserved::default(), vec![0; 19], vec![0; 20]).is_none());
    assert!(Handshake::new(Reserved::default(), vec![0; 20], vec![0; 21]).is_none());
    assert!(Handshake::new(Reserved::default(), vec![], vec![]).is_none());
    let handshake = Handshake::new(Reserved::default(), vec![1; 20], vec![2; 20]).unwrap();
    assert_eq!(handshake.clone(), handshake);
    let default = Handshake::default();
    assert_eq!(default.info_hash(), &[0; 20]);
    assert_eq!(default.peer_id(), &[0; 20]);
    assert_eq!(default.ext().inner(), &[0; 8]);
}

#[test]
fn reserved_tells_extension_support() {
    assert!(!Reserved::default().supports_extensions());
    assert!(Reserved::new([0, 0, 0, 0, 0, 0x10, 0, 0]).supports_extensions());
    assert!(Reserved::new([0, 0, 0, 0, 0, 0xff, 0, 0]).supports_extensions());
    assert!(!Reserved::new([0xff, 0xff, 0xff, 0xff, 0xff, 0xef, 0xff, 0xff]).supports_extensions());
    assert!(!Reserved::new([0, 0, 0, 0, 0x10, 0, 0x10, 0]).supports_extensions());
    assert_eq!(Reserved::BYTES_COUNT, 8);
}

#[test]
fn ids_are_the_documented_bytes() {
    let ids = [
        Id::Choke,
        Id::Unchoke,
        Id::Interested,
        Id::NotInterested,
        Id::Have,
        Id::Bitfield,
        Id::Request,
        Id::Piece,
        Id::Cancel,
    ];
    for (byte, id) in ids.iter().enumerate() {
        assert_eq!(Id::from(byte as u8), *id);
        assert_eq!(id.byte(), byte as u8);
    }
    assert_eq!(Id::from(9), Id::Unknown);
    assert_eq!(Id::from(200), Id::Unknown);
    assert_eq!(Id::from(255), Id::Unknown);
    assert_eq!(Id::Unknown.byte(), 255);
    assert_eq!(Message::Choke.id(), Id::Choke);
    assert_eq!(Message::Have(Have::default()).id(), Id::Have);
    assert_eq!(Message::Bitfield(Bitfield::default()).id(), Id::Bitfield);
    assert_eq!(Message::Request(Request::default()).id(), Id::Request);
    assert_eq!(Message::Piece(Piece::default()).id(), Id::Piece);
    assert_eq!(Message::Cancel(Cancel::default()).id(), Id::Cancel);
    assert_eq!(<Choke as Standalone>::id(), 0);
    assert_eq!(<Unchoke as Standalone>::id(), 1);
    assert_eq!(<Interested as Standalone>::id(), 2);
    assert_eq!(<NotInterested as Standalone>::id(), 3);
    assert_eq!(<Have as Standalone>::id(), 4);
    assert_eq!(<Bitfield as Standalone>::id(), 5);
    assert_eq!(<Request as Standalone>::id(), 6);
    assert_eq!(<Piece as Standalone>::id(), 7);
    assert_eq!(<Cancel as Standalone>::id(), 8);
}

#[test]
fn decode_from_lowers_the_hint_by_what_it_reads() {
    let bytes = [0, 0, 0, 1, 0, 0, 0, 2, 0, 0, 0, 3, 9, 9];
    let mut reader = ByteReader::new(&bytes);
    let mut hint = 12;
    assert_eq!(
        Request::decode_from(&mut hint, &mut reader),
        Ok(Some(Request { piece_index: 1, offset: 2, data_length: 3 }))
    );
    assert_eq!(hint, 0);
    assert_eq!(reader.remaining_len(), 2);

    for wrong in [0usize, 6, 11, 13, 14] {
        let mut reader = ByteReader::new(&bytes);
        let mut hint = wrong;
        assert_eq!(Request::decode_from(&mut hint, &mut reader), Ok(None));
        assert_eq!(hint, wrong);
        assert_eq!(reader.remaining_len(), 14);
        let mut hint = wrong;
        assert_eq!(Cancel::decode_from(&mut hint, &mut reader), Ok(None));
        assert_eq!(hint, wrong);
    }
    for wrong in [0usize, 3, 5] {
        let mut reader = ByteReader::new(&bytes);
        let mut hint = wrong;
        assert_eq!(Have::decode_from(&mut hint, &mut reader), Ok(None));
        assert_eq!(hint, wrong);
        assert_eq!(reader.remaining_len(), 14);
    }
    let mut reader = ByteReader::new(&bytes);
    let mut hint = 7;
    assert_eq!(Piece::decode_from(&mut hint, &mut reader), Ok(None));
    assert_eq!(hint, 7);
    assert_eq!(reader.remaining_len(), 14);
    let mut hint = 1;
    assert_eq!(Choke::decode_from(&mut hint, &mut reader), Ok(None));
    let mut hint = 0;
    assert_eq!(Choke::decode_from(&mut hint, &mut reader), Ok(Some(Choke)));
    let mut hint = 8;
    assert_eq!(
        Piece::decode_from(&mut hint, &mut reader),
        Ok(Some(Piece { piece_index: 1, offset: 2, data: vec![] }))
    );
    assert_eq!(hint, 0);

    let mut reader = ByteReader::new(&bytes);
    let mut hint = 11;
    assert_eq!(
        Piece::decode_from(&mut hint, &mut reader),
        Ok(Some(Piece { piece_index: 1, offset: 2, data: vec![0, 0, 0] }))
    );
    assert_eq!(hint, 0);
    assert_eq!(reader.remaining_len(), 3);

    let mut reader = ByteReader::new(&bytes);
    let mut hint = 5;
    assert_eq!(
        Bitfield::decode_from(&mut hint, &mut reader),
        Ok(Some(Bitfield { bits: vec![0, 0, 0, 1, 0] }))
    );
    assert_eq!(hint, 0);
    assert_eq!(reader.remaining_len(), 9);

    let mut reader = ByteReader::new(&bytes);
    let mut hint = 0;
    assert_eq!(u8::decode_from(&mut hint, &mut reader), Ok(None));
    assert_eq!(reader.remaining_len(), 14);

    let mut reader = ByteReader::new(&bytes[..2]);
    let mut hint = 4;
    assert_eq!(Have::decode_from(&mut hint, &mut reader), Err(IOFailure::UnexpectedEof));
}

#[test]
fn decode_or_discard_from_drops_the_rest_of_the_frame() {
    let bytes = [0, 0, 0, 1, 0, 0, 0, 2, 0xaa, 0xbb];
    let mut reader = ByteReader::new(&bytes);
    let mut hint = 6;
    assert_eq!(Request::decode_or_discard_from(&mut hint, &mut reader), Ok(None));
    assert_eq!(reader.rest(), &[0, 2, 0xaa, 0xbb]);

    let mut reader = ByteReader::new(&bytes);
    let mut hint = 4;
    assert_eq!(
        Have::decode_or_discard_from(&mut hint, &mut reader),
        Ok(Some(Have { piece_index: 1 }))
    );
    assert_eq!(reader.remaining_len(), 6);
}

#[test]
fn header_and_payload_are_read_apart() {
    let bytes = [0, 0, 0, 5, 4, 0, 0, 0, 7, 0xcc];
    let mut reader = ByteReader::new(&bytes);
    assert_eq!(recv_header(&mut reader), Ok(Some((5, 4))));
    let mut left = 4;
    assert_eq!(recv_payload::<Have>(&mut left, &mut reader), Ok(Some(Have { piece_index: 7 })));
    assert_eq!(left, 0);
    assert_eq!(reader.rest(), &[0xcc]);
    let mut reader = ByteReader::new(&[0, 0, 0, 0, 1]);
    assert_eq!(recv_header(&mut reader), Ok(None));
    assert_eq!(reader.rest(), &[1]);
}

#[test]
fn containers_give_their_payload() {
    let mut c = Container(Have { piece_index: 1 });
    assert_eq!(c.inner(), &Have { piece_index: 1 });
    c.inner_mut().piece_index = 2;
    assert_eq!(c.into_inner(), Have { piece_index: 2 });

    let mut r = RecvContainer(Bitfield { bits: vec![1] });
    assert_eq!(r.inner().bits, vec![1]);
    r.inner_mut().bits.push(2);
    assert_eq!(r.into_inner(), Bitfield { bits: vec![1, 2] });

    let mut buf = vec![];
    SendContainer(Have { piece_index: 0x0a }).send_to(&mut buf);
    assert_eq!(buf, vec![0, 0, 0, 5, 4, 0, 0, 0, 0x0a]);
    let mut reader = ByteReader::new(&buf);
    let received = RecvContainer::<Have>::recv_or_discard_from(&mut reader).unwrap().unwrap();
    assert_eq!(received.into_inner(), Have { piece_index: 0x0a });
    assert_eq!(Container::<Have>::MAX_DATA_SIZE, u32::MAX as usize - 5);
    assert_eq!(Message::from(Have { piece_index: 1 }), Message::Have(Have { piece_index: 1 }));
    assert_eq!(Message::from(Piece::default()), Message::Piece(Piece::default()));
    assert_eq!(Message::from(sample_request()).size(), 17);
    assert_eq!(Message::Choke.size(), 5);
}

#[test]
fn reader_reads_and_discards() {
    let bytes = [1, 0, 0, 1, 0x0b, 5, 6, 7];
    let mut reader = ByteReader::new(&bytes);
    assert_eq!(reader.read_u8(), Ok(1));
    assert_eq!(reader.read_u32(), Ok(267));
    assert_eq!(reader.read_exact(2), Ok(vec![5, 6]));
    assert_eq!(reader.read_exact(2), Err(IOFailure::UnexpectedEof));
    assert_eq!(reader.read_u32(), Err(IOFailure::UnexpectedEof));
    assert_eq!(reader.remaining_len(), 1);
    reader.discard(10);
    assert_eq!(reader.remaining_len(), 0);
    assert_eq!(reader.read_u8(), Err(IOFailure::UnexpectedEof));
    let mut reader = ByteReader::new(&bytes);
    reader.discard(3);
    reader.advance(1);
    assert_eq!(reader.rest(), &[0x0b, 5, 6, 7]);
}

#[test]
fn a_new_peer_is_idle() {
    let peer = Peer::new(("127.0.0.1".to_owned(), 6881));
    assert_eq!(peer.addr(), &("127.0.0.1".to_owned(), 6881));
    assert!(!peer.is_choked());
    assert!(!peer.is_interested());
    assert_eq!(peer.traffic(), (0, 0));
}
