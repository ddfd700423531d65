//! The peer-wire messages.
use vstd::prelude::*;

pub use self::codec::{Decode, Encode, Standalone, Wire};
pub use self::frame::{Framed, Recv, RecvMessage, Send, SendMessage};

pub mod codec;
pub mod frame;
pub mod laws;

verus! {

/// BitTorrent integer.
pub type BTInt = u32;

/// Type of a peer-wire message.
#[derive(Debug, Clone, Copy, PartialEq, Eq)]
pub enum Id {
    Choke,
    Unchoke,
    Interested,
    NotInterested,
    Have,
    Bitfield,
    Request,
    Piece,
    Cancel,
    Unknown,
}

/// The message type that an identifier byte names; every byte above 8 names none.
pub open spec fn id_of_byte(val: u8) -> Id {
    match val {
        0 => Id::Choke,
        1 => Id::Unchoke,
        2 => Id::Interested,
        3 => Id::NotInterested,
        4 => Id::Have,
        5 => Id::Bitfield,
        6 => Id::Request,
        7 => Id::Piece,
        8 => Id::Cancel,
        _ => Id::Unknown,
    }
}

impl Id {
    /// The identifier byte of the message type; `Unknown` stands for 255.
    pub open spec fn spec_byte(self) -> u8 {
        match self {
            Id::Choke => 0,
            Id::Unchoke => 1,
            Id::Interested => 2,
            Id::NotInterested => 3,
            Id::Have => 4,
            Id::Bitfield => 5,
            Id::Request => 6,
            Id::Piece => 7,
            Id::Cancel => 8,
            Id::Unknown => 255,
        }
    }

    /// The message type that an identifier byte names; every byte above 8
    /// names none.
    pub fn of_byte(val: u8) -> (id: Id)
        ensures
            id == id_of_byte(val),
    {
        if val == 0 {
            Id::Choke
        } else if val == 1 {
            Id::Unchoke
        } else if val == 2 {
            Id::Interested
        } else if val == 3 {
            Id::NotInterested
        } else if val == 4 {
            Id::Have
        } else if val == 5 {
            Id::Bitfield
        } else if val == 6 {
            Id::Request
        } else if val == 7 {
            Id::Piece
        } else if val == 8 {
            Id::Cancel
        } else {
            Id::Unknown
        }
    }

    /// The identifier byte of the message type; `Unknown` stands for 255.
    #[verifier::when_used_as_spec(spec_byte)]
    pub fn byte(self) -> (b: u8)
        ensures
            b == self.spec_byte(),
    {
        match self {
            Id::Choke => 0,
            Id::Unchoke => 1,
            Id::Interested => 2,
            Id::NotInterested => 3,
            Id::Have => 4,
            Id::Bitfield => 5,
            Id::Request => 6,
            Id::Piece => 7,
            Id::Cancel => 8,
            Id::Unknown => 255,
        }
    }
}

impl From<u8> for Id {
    fn from(val: u8) -> (id: Id)
        ensures
            id == id_of_byte(val),
    {
        Id::of_byte(val)
    }
}

impl vstd::std_specs::convert::FromSpecImpl<u8> for Id {
    open spec fn obeys_from_spec() -> bool {
        true
    }

    open spec fn from_spec(val: u8) -> Id {
        id_of_byte(val)
    }
}

/// A message without payload: the peer is choked.
#[derive(Debug, Clone, Copy, Default, PartialEq, Eq)]
pub struct Choke;

/// A message without payload: the peer is no longer choked.
#[derive(Debug, Clone, Copy, Default, PartialEq, Eq)]
pub struct Unchoke;

/// A message without payload: the sender is interested.
#[derive(Debug, Clone, Copy, Default, PartialEq, Eq)]
pub struct Interested;

/// A message without payload: the sender is no longer interested.
#[derive(Debug, Clone, Copy, Default, PartialEq, Eq)]
pub struct NotInterested;

/// The sender has the piece.
#[derive(Debug, Clone, Copy, PartialEq, Eq)]
pub struct Have {
    pub piece_index: BTInt,
}

/// The pieces that the sender has, one bit each.
#[derive(Debug, PartialEq, Eq)]
pub struct Bitfield {
    pub bits: Vec<u8>,
}

/// A block is asked for.
#[derive(Debug, Clone, Copy, PartialEq, Eq)]
pub struct Request {
    pub piece_index: BTInt,
    pub offset: BTInt,
    pub data_length: BTInt,
}

/// A block of a piece.
#[derive(Debug, PartialEq, Eq)]
pub struct Piece {
    /// The `index` section of the message.
    pub piece_index: BTInt,
    /// The `begin` section of the message.
    pub offset: BTInt,
    /// The `block` section of the message.
    pub data: Vec<u8>,
}

/// A request is taken back.
#[derive(Debug, Clone, Copy, PartialEq, Eq)]
pub struct Cancel {
    pub piece_index: BTInt,
    pub offset: BTInt,
    pub data_length: BTInt,
}

/// The peer-wire messages, each with its payload. The handshake is no
/// message, and a keep-alive is received as no message.
#[derive(Debug, PartialEq, Eq)]
pub enum Message {
    Choke,
    Unchoke,
    Interested,
    NotInterested,
    Have(Have),
    Bitfield(Bitfield),
    Request(Request),
    Piece(Piece),
    Cancel(Cancel),
}

impl From<Have> for Message {
    fn from(val: Have) -> (message: Message) {
        Message::Have(val)
    }
}

impl vstd::std_specs::convert::FromSpecImpl<Have> for Message {
    open spec fn obeys_from_spec() -> bool {
        true
    }

    open spec fn from_spec(val: Have) -> Message {
        Message::Have(val)
    }
}

impl From<Bitfield> for Message {
    fn from(val: Bitfield) -> (message: Message) {
        Message::Bitfield(val)
    }
}

impl vstd::std_specs::convert::FromSpecImpl<Bitfield> for Message {
    open spec fn obeys_from_spec() -> bool {
        true
    }

    open spec fn from_spec(val: Bitfield) -> Message {
        Message::Bitfield(val)
    }
}

impl From<Request> for Message {
    fn from(val: Request) -> (message: Message) {
        Message::Request(val)
    }
}

impl vstd::std_specs::convert::FromSpecImpl<Request> for Message {
    open spec fn obeys_from_spec() -> bool {
        true
    }

    open spec fn from_spec(val: Request) -> Message {
        Message::Request(val)
    }
}

impl From<Piece> for Message {
    fn from(val: Piece) -> (message: Message) {
        Message::Piece(val)
    }
}

impl vstd::std_specs::convert::FromSpecImpl<Piece> for Message {
    open spec fn obeys_from_spec() -> bool {
        true
    }

    open spec fn from_spec(val: Piece) -> Message {
        Message::Piece(val)
    }
}

impl From<Cancel> for Message {
    fn from(val: Cancel) -> (message: Message) {
        Message::Cancel(val)
    }
}

impl vstd::std_specs::convert::FromSpecImpl<Cancel> for Message {
    open spec fn obeys_from_spec() -> bool {
        true
    }

    open spec fn from_spec(val: Cancel) -> Message {
        Message::Cancel(val)
    }
}

/// A keep-alive: a frame of length zero, which carries nothing.
pub type Keepalive = ();

/// A message as mathematics: byte vectors are sequences.
pub enum MessageView {
    Choke,
    Unchoke,
    Interested,
    NotInterested,
    Have { piece_index: u32 },
    Bitfield { bits: Seq<u8> },
    Request { piece_index: u32, offset: u32, data_length: u32 },
    Piece { piece_index: u32, offset: u32, data: Seq<u8> },
    Cancel { piece_index: u32, offset: u32, data_length: u32 },
}

impl View for Message {
    type V = MessageView;

    open spec fn view(&self) -> MessageView {
        match self {
            Message::Choke => MessageView::Choke,
            Message::Unchoke => MessageView::Unchoke,
            Message::Interested => MessageView::Interested,
            Message::NotInterested => MessageView::NotInterested,
            Message::Have(have) => MessageView::Have { piece_index: have.piece_index },
            Message::Bitfield(bitfield) => MessageView::Bitfield { bits: bitfield.bits@ },
            Message::Request(request) => MessageView::Request {
                piece_index: request.piece_index,
                offset: request.offset,
                data_length: request.data_length,
            },
            Message::Piece(piece) => MessageView::Piece {
                piece_index: piece.piece_index,
                offset: piece.offset,
                data: piece.data@,
            },
            Message::Cancel(cancel) => MessageView::Cancel {
                piece_index: cancel.piece_index,
                offset: cancel.offset,
                data_length: cancel.data_length,
            },
        }
    }
}

impl Message {
    /// The type of the message.
    pub open spec fn spec_id(&self) -> Id {
        match self {
            Message::Choke => Id::Choke,
            Message::Unchoke => Id::Unchoke,
            Message::Interested => Id::Interested,
            Message::NotInterested => Id::NotInterested,
            Message::Have(_) => Id::Have,
            Message::Bitfield(_) => Id::Bitfield,
            Message::Request(_) => Id::Request,
            Message::Piece(_) => Id::Piece,
            Message::Cancel(_) => Id::Cancel,
        }
    }

    /// The type of the message.
    #[verifier::when_used_as_spec(spec_id)]
    pub fn id(&self) -> (id: Id)
        ensures
            id == self.spec_id(),
            id != Id::Unknown,
    {
        match self {
            Message::Choke => Id::Choke,
            Message::Unchoke => Id::Unchoke,
            Message::Interested => Id::Interested,
            Message::NotInterested => Id::NotInterested,
            Message::Have(_) => Id::Have,
            Message::Bitfield(_) => Id::Bitfield,
            Message::Request(_) => Id::Request,
            Message::Piece(_) => Id::Piece,
            Message::Cancel(_) => Id::Cancel,
        }
    }
}

/// The eight reserved bytes of a handshake: flags for extensions.
#[derive(Debug, Clone, Copy, PartialEq, Eq)]
pub struct Reserved([u8; 8]);

impl View for Reserved {
    type V = Seq<u8>;

    closed spec fn view(&self) -> Seq<u8> {
        self.0@
    }
}

impl Reserved {
    pub const BYTES_COUNT: usize = 8;

    /// The flags from their eight bytes.
    pub fn new(bytes: [u8; 8]) -> (reserved: Self)
        ensures
            reserved@ == bytes@,
    {
        Reserved(bytes)
    }

    /// There are always eight bytes.
    pub proof fn lemma_len(&self)
        ensures
            self@.len() == 8,
    {
    }

    /// The eight bytes.
    pub fn inner(&self) -> (bytes: &[u8])
        ensures
            bytes@ == self@,
            bytes@.len() == 8,
    {
        self.0.as_slice()
    }

    /// Whether the peer supports the extension protocol: bit `0x10` of the
    /// byte at offset 5.
    pub fn supports_extensions(&self) -> (r: bool)
        ensures
            r == (self@[5] & 0x10 == 0x10),
    {
        self.0[5] & 0x10 == 0x10
    }
}

impl Clone for Bitfield {
    fn clone(&self) -> (copy: Self)
        ensures
            copy.bits@ == self.bits@,
    {
        let bits = self.bits.clone();
        assert(bits@ =~= self.bits@);
        Bitfield { bits }
    }
}

impl Clone for Piece {
    fn clone(&self) -> (copy: Self)
        ensures
            copy.piece_index == self.piece_index,
            copy.offset == self.offset,
            copy.data@ == self.data@,
    {
        let data = self.data.clone();
        assert(data@ =~= self.data@);
        Piece { piece_index: self.piece_index, offset: self.offset, data }
    }
}

impl Clone for Message {
    fn clone(&self) -> (copy: Self)
        ensures
            copy@ == self@,
    {
        match self {
            Message::Choke => Message::Choke,
            Message::Unchoke => Message::Unchoke,
            Message::Interested => Message::Interested,
            Message::NotInterested => Message::NotInterested,
            Message::Have(have) => Message::Have(*have),
            Message::Bitfield(bitfield) => Message::Bitfield(bitfield.clone()),
            Message::Request(request) => Message::Request(*request),
            Message::Piece(piece) => Message::Piece(piece.clone()),
            Message::Cancel(cancel) => Message::Cancel(*cancel),
        }
    }
}

impl Default for Have {
    fn default() -> (have: Self)
        ensures
            have == (Have { piece_index: 0 }),
    {
        Have { piece_index: 0 }
    }
}

impl Default for Bitfield {
    fn default() -> (bitfield: Self)
        ensures
            bitfield.bits@ == Seq::<u8>::empty(),
    {
        Bitfield { bits: Vec::new() }
    }
}

impl Default for Request {
    fn default() -> (request: Self)
        ensures
            request == (Request { piece_index: 0, offset: 0, data_length: 0 }),
    {
        Request { piece_index: 0, offset: 0, data_length: 0 }
    }
}

impl Default for Piece {
    fn default() -> (piece: Self)
        ensures
            piece.piece_index == 0,
            piece.offset == 0,
            piece.data@ == Seq::<u8>::empty(),
    {
        Piece { piece_index: 0, offset: 0, data: Vec::new() }
    }
}

impl Default for Cancel {
    fn default() -> (cancel: Self)
        ensures
            cancel == (Cancel { piece_index: 0, offset: 0, data_length: 0 }),
    {
        Cancel { piece_index: 0, offset: 0, data_length: 0 }
    }
}

impl Default for Reserved {
    fn default() -> (reserved: Self)
        ensures
            reserved@ == Seq::new(8, |i: int| 0u8),
    {
        let reserved = Reserved([0u8; 8]);
        assert(reserved@ =~= Seq::new(8, |i: int| 0u8));
        reserved
    }
}

/// The name of the protocol as a handshake begins with it: the ASCII bytes
/// of `BitTorrent protocol`.
pub open spec fn protocol_name() -> Seq<u8> {
    seq![
        0x42u8, 0x69, 0x74, 0x54, 0x6f, 0x72, 0x72, 0x65, 0x6e, 0x74, 0x20, 0x70, 0x72, 0x6f, 0x74,
        0x6f, 0x63, 0x6f, 0x6c,
    ]
}

/// The first message of a connection, in either direction.
#[derive(Debug, PartialEq, Eq)]
pub struct Handshake {
    reserved: Reserved,
    info_hash: Vec<u8>,
    peer_id: Vec<u8>,
}

impl Handshake {
    #[verifier::type_invariant]
    spec fn inv(self) -> bool {
        self.info_hash@.len() == 20 && self.peer_id@.len() == 20
    }

    /// The extension flags.
    pub closed spec fn spec_ext(&self) -> Reserved {
        self.reserved
    }

    /// The hash of the torrent's info dictionary.
    pub closed spec fn spec_info_hash(&self) -> Seq<u8> {
        self.info_hash@
    }

    /// The identifier of the peer.
    pub closed spec fn spec_peer_id(&self) -> Seq<u8> {
        self.peer_id@
    }

    /// The name of the protocol.
    pub fn protocol() -> (name: [u8; 19])
        ensures
            name@ == protocol_name(),
    {
        let name: [u8; 19] = [
            0x42, 0x69, 0x74, 0x54, 0x6f, 0x72, 0x72, 0x65, 0x6e, 0x74, 0x20, 0x70, 0x72, 0x6f, 0x74,
            0x6f, 0x63, 0x6f, 0x6c,
        ];
        assert(name@ =~= protocol_name());
        name
    }

    /// A handshake, where `info_hash` and `peer_id` are exactly 20 bytes long.
    pub fn new(reserved: Reserved, info_hash: Vec<u8>, peer_id: Vec<u8>) -> (r: Option<Self>)
        ensures
            r is Some <==> info_hash@.len() == 20 && peer_id@.len() == 20,
            r matches Some(h) ==> h.spec_ext() == reserved && h.spec_info_hash() == info_hash@
                && h.spec_peer_id() == peer_id@,
    {
        if info_hash.len() != 20 || peer_id.len() != 20 {
            None
        } else {
            Some(Handshake { reserved, info_hash, peer_id })
        }
    }

    /// The extension flags.
    pub fn ext(&self) -> (reserved: &Reserved)
        ensures
            *reserved == self.spec_ext(),
    {
        &self.reserved
    }

    /// The hash of the torrent's info dictionary: 20 bytes.
    pub fn info_hash(&self) -> (bytes: &[u8])
        ensures
            bytes@ == self.spec_info_hash(),
            bytes@.len() == 20,
    {
        proof {
            use_type_invariant(self);
        }
        self.info_hash.as_slice()
    }

    /// The identifier of the peer: 20 bytes.
    pub fn peer_id(&self) -> (bytes: &[u8])
        ensures
            bytes@ == self.spec_peer_id(),
            bytes@.len() == 20,
    {
        proof {
            use_type_invariant(self);
        }
        self.peer_id.as_slice()
    }
}

impl Clone for Handshake {
    fn clone(&self) -> (h: Self)
        ensures
            h.spec_ext() == self.spec_ext(),
            h.spec_info_hash() == self.spec_info_hash(),
            h.spec_peer_id() == self.spec_peer_id(),
    {
        proof {
            use_type_invariant(self);
        }
        let info_hash = self.info_hash.clone();
        let peer_id = self.peer_id.clone();
        assert(info_hash@ =~= self.info_hash@);
        assert(peer_id@ =~= self.peer_id@);
        Handshake { reserved: self.reserved, info_hash, peer_id }
    }
}

impl Default for Handshake {
    fn default() -> (h: Self)
        ensures
            h.spec_ext()@ == Seq::new(8, |i: int| 0u8),
            h.spec_info_hash() == Seq::new(20, |i: int| 0u8),
            h.spec_peer_id() == Seq::new(20, |i: int| 0u8),
    {
        let reserved = Reserved::default();
        let mut info_hash: Vec<u8> = Vec::new();
        let mut peer_id: Vec<u8> = Vec::new();
        let mut i: usize = 0;
        while i < 20
            invariant
                i <= 20,
                info_hash@ == Seq::new(i as nat, |j: int| 0u8),
                peer_id@ == Seq::new(i as nat, |j: int| 0u8),
            decreases 20 - i,
        {
            info_hash.push(0);
            peer_id.push(0);
            i += 1;
            assert(info_hash@ =~= Seq::new(i as nat, |j: int| 0u8));
            assert(peer_id@ =~= Seq::new(i as nat, |j: int| 0u8));
        }
        Handshake { reserved, info_hash, peer_id }
    }
}

/// Wraps a payload that is exchanged as a message of its own: on the wire
/// it stands behind a length and its identifier byte.
#[derive(Debug, Clone, Copy, PartialEq, Eq)]
pub struct Container<M>(pub M);

impl<M> Container<M> {
    /// The longest payload of a frame that, with its length and its
    /// identifier, is no longer than a 32-bit integer can tell.
    pub const MAX_DATA_SIZE: usize = 0xffff_fffa;

    /// Gives up the wrapper.
    pub fn into_inner(self) -> (inner: M)
        ensures
            inner == self.0,
    {
        self.0
    }

    /// The payload.
    pub fn inner(&self) -> (inner: &M)
        ensures
            *inner == self.0,
    {
        &self.0
    }

    /// The payload, to be changed in place.
    pub fn inner_mut(&mut self) -> (inner: &mut M)
        ensures
            *inner == old(self).0,
            final(self).0 == *final(inner),
    {
        &mut self.0
    }
}

/// Wraps a payload that is sent as a message of its own.
#[derive(Debug, Clone, Copy)]
pub struct SendContainer<M>(pub M);

/// Wraps a payload that is received as a message of its own.
#[derive(Debug, Clone)]
pub struct RecvContainer<M>(pub M);

impl<M> RecvContainer<M> {
    /// Gives up the wrapper.
    pub fn into_inner(self) -> (inner: M)
        ensures
            inner == self.0,
    {
        self.0
    }

    /// The payload.
    pub fn inner(&self) -> (inner: &M)
        ensures
            *inner == self.0,
    {
        &self.0
    }

    /// The payload, to be changed in place.
    pub fn inner_mut(&mut self) -> (inner: &mut M)
        ensures
            *inner == old(self).0,
            final(self).0 == *final(inner),
    {
        &mut self.0
    }
}

} // verus!
