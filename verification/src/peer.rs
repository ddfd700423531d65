//! A peer of the swarm, before any connection.
use vstd::prelude::*;

verus! {

/// What is known of a peer.
pub struct Peer {
    chocked: bool,
    interested: bool,
    uploaded: usize,
    downloaded: usize,
    addr: (String, u16),
}

impl Peer {
    /// The host and port of the peer.
    pub closed spec fn spec_addr(&self) -> (String, u16) {
        self.addr
    }

    /// Whether the peer is choked.
    pub closed spec fn spec_choked(&self) -> bool {
        self.chocked
    }

    /// Whether the peer is interested.
    pub closed spec fn spec_interested(&self) -> bool {
        self.interested
    }

    /// The numbers of bytes uploaded to and downloaded from the peer.
    pub closed spec fn spec_traffic(&self) -> (usize, usize) {
        (self.uploaded, self.downloaded)
    }

    /// An unconnected peer: neither choked nor interested, with no traffic.
    pub fn new(addr: (String, u16)) -> (peer: Self)
        ensures
            peer.spec_addr() == addr,
            !peer.spec_choked(),
            !peer.spec_interested(),
            peer.spec_traffic() == (0usize, 0usize),
    {
        Peer { chocked: false, interested: false, uploaded: 0, downloaded: 0, addr }
    }

    /// The host and port of the peer.
    pub fn addr(&self) -> (addr: &(String, u16))
        ensures
            *addr == self.spec_addr(),
    {
        &self.addr
    }

    /// Whether the peer is choked.
    pub fn is_choked(&self) -> (r: bool)
        ensures
            r == self.spec_choked(),
    {
        self.chocked
    }

    /// Whether the peer is interested.
    pub fn is_interested(&self) -> (r: bool)
        ensures
            r == self.spec_interested(),
    {
        self.interested
    }

    /// The numbers of bytes uploaded to and downloaded from the peer.
    pub fn traffic(&self) -> (r: (usize, usize))
        ensures
            r == self.spec_traffic(),
    {
        (self.uploaded, self.downloaded)
    }
}

} // verus!
