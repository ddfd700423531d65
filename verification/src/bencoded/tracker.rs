//! The schema of a tracker's answer over bencode values.
use vstd::prelude::*;
use vstd::string::*;
use super::encoding::{list_view, BDictionary, BList, Entry, Error};
use super::metainfo::{
    bytes_entry, bytes_view, field, insert_optional, key, key_bytes, optional_bytes,
    optional_bytes_entry, optional_bytes_value, optional_int, optional_int_value,
    parse_optional_primitive, parse_required_primitive, put, put_optional, required_field,
};
use super::schema_laws::{lemma_as_map_empty, lemma_put, lemma_put_optional};
use super::value::{as_map, BValue};
use super::{BInt, BString, PeerCanonical, PeerList, TrackerInfo, TrackerResponce};

verus! {

/// The figures of a tracker's answer as mathematics.
pub struct TrackerInfoView {
    pub interval: u64,
    pub min_interval: Option<u64>,
    pub id: Option<Seq<u8>>,
    pub complete: u64,
    pub incomplete: u64,
}

/// A peer of the canonical form as mathematics.
pub struct PeerCanonicalView {
    pub id: Seq<u8>,
    pub ip: Seq<u8>,
    pub port: u64,
}

/// The peers of a tracker's answer as mathematics.
pub enum PeerListView {
    Canonical(Seq<PeerCanonicalView>),
    Compact(Seq<u8>),
}

/// A tracker's answer as mathematics.
pub enum TrackerResponceView {
    Success { info: TrackerInfoView, peers: PeerListView },
    Error { failure_reason: Seq<u8> },
}

impl View for TrackerInfo {
    type V = TrackerInfoView;

    open spec fn view(&self) -> TrackerInfoView {
        TrackerInfoView {
            interval: self.interval,
            min_interval: self.min_interval,
            id: bytes_view(self.id),
            complete: self.complete,
            incomplete: self.incomplete,
        }
    }
}

impl View for PeerCanonical {
    type V = PeerCanonicalView;

    open spec fn view(&self) -> PeerCanonicalView {
        PeerCanonicalView { id: self.id@, ip: self.ip@, port: self.port }
    }
}

/// The models of the peers of a list.
pub open spec fn peer_views(peers: Seq<PeerCanonical>) -> Seq<PeerCanonicalView> {
    Seq::new(peers.len(), |i: int| peers[i]@)
}

impl View for PeerList {
    type V = PeerListView;

    open spec fn view(&self) -> PeerListView {
        match self {
            PeerList::Canonical(peers) => PeerListView::Canonical(peer_views(peers@)),
            PeerList::Compact(bytes) => PeerListView::Compact(bytes@),
        }
    }
}

impl View for TrackerResponce {
    type V = TrackerResponceView;

    open spec fn view(&self) -> TrackerResponceView {
        match self {
            TrackerResponce::Success { info, peers } => TrackerResponceView::Success {
                info: info@,
                peers: peers@,
            },
            TrackerResponce::Error { failure_reason } => TrackerResponceView::Error {
                failure_reason: failure_reason@,
            },
        }
    }
}

/// The peer that a value describes: a dictionary with a `peer id`, an `ip`
/// and a `port`.
pub open spec fn peer_of(v: BValue) -> Result<PeerCanonicalView, Error> {
    match v {
        BValue::Dictionary(entries) => {
            let d = as_map(entries);
            match required_field::<BString>(d, "peer id") {
                Err(e) => Err(e),
                Ok(id) => match required_field::<BString>(d, "ip") {
                    Err(e) => Err(e),
                    Ok(ip) => match required_field::<BInt>(d, "port") {
                        Err(e) => Err(e),
                        Ok(port) => Ok(
                            PeerCanonicalView {
                                id: id->ByteString_0,
                                ip: ip->ByteString_0,
                                port: port->Integer_0,
                            },
                        ),
                    },
                },
            }
        },
        _ => Err(Error::InvalidFormat("peers")),
    }
}

/// The peers that the items of a list describe, or the first failure among them.
pub open spec fn peers_of(items: Seq<BValue>) -> Result<Seq<PeerCanonicalView>, Error>
    decreases items.len(),
{
    if items.len() == 0 {
        Ok(Seq::empty())
    } else {
        match peers_of(items.drop_last()) {
            Err(e) => Err(e),
            Ok(peers) => match peer_of(items.last()) {
                Err(e) => Err(e),
                Ok(peer) => Ok(peers.push(peer)),
            },
        }
    }
}

/// The peers of an answer: the compact form where `peers` is a byte
/// string, the canonical form where it is a list.
pub open spec fn peer_list_of(d: Map<Seq<u8>, BValue>) -> Result<PeerListView, Error> {
    match field(d, "peers") {
        None => Err(Error::MissingField("peers")),
        Some(BValue::ByteString(bytes)) => Ok(PeerListView::Compact(bytes)),
        Some(BValue::List(items)) => match peers_of(items) {
            Err(e) => Err(e),
            Ok(peers) => Ok(PeerListView::Canonical(peers)),
        },
        Some(_) => Err(Error::InvalidFormat("peers")),
    }
}

/// The figures of an answer.
pub open spec fn tracker_info_of(d: Map<Seq<u8>, BValue>) -> Result<TrackerInfoView, Error> {
    match required_field::<BInt>(d, "interval") {
        Err(e) => Err(e),
        Ok(interval) => match required_field::<BInt>(d, "complete") {
            Err(e) => Err(e),
            Ok(complete) => match required_field::<BInt>(d, "incomplete") {
                Err(e) => Err(e),
                Ok(incomplete) => Ok(
                    TrackerInfoView {
                        interval: interval->Integer_0,
                        min_interval: optional_int(d, "min interval"),
                        id: optional_bytes(d, "tracker id"),
                        complete: complete->Integer_0,
                        incomplete: incomplete->Integer_0,
                    },
                ),
            },
        },
    }
}

/// What reading the figures leaves of an answer: the fields that were
/// asked for are taken out, and after a required field that fails none is
/// asked for.
pub open spec fn tracker_info_left(d: Map<Seq<u8>, BValue>) -> Map<Seq<u8>, BValue> {
    let d1 = d.remove(key_bytes("interval"));
    if required_field::<BInt>(d, "interval") is Err {
        d1
    } else {
        let d2 = d1.remove(key_bytes("complete"));
        if required_field::<BInt>(d, "complete") is Err {
            d2
        } else {
            let d3 = d2.remove(key_bytes("incomplete"));
            if required_field::<BInt>(d, "incomplete") is Err {
                d3
            } else {
                d3.remove(key_bytes("min interval")).remove(key_bytes("tracker id"))
            }
        }
    }
}

/// The answer that a value describes: a dictionary that gives a `failure
/// reason`, or else the figures and the peers.
pub open spec fn tracker_responce_of(v: BValue) -> Result<TrackerResponceView, Error> {
    match v {
        BValue::Dictionary(entries) => {
            let d = as_map(entries);
            if d.dom().contains(key_bytes("failure reason")) {
                match required_field::<BString>(d, "failure reason") {
                    Err(e) => Err(e),
                    Ok(reason) => Ok(
                        TrackerResponceView::Error { failure_reason: reason->ByteString_0 },
                    ),
                }
            } else {
                match tracker_info_of(d) {
                    Err(e) => Err(e),
                    Ok(info) => match peer_list_of(d) {
                        Err(e) => Err(e),
                        Ok(peers) => Ok(TrackerResponceView::Success { info, peers }),
                    },
                }
            }
        },
        _ => Err(Error::InvalidFormat("tracker response")),
    }
}

/// The dictionary that describes a peer.
pub open spec fn peer_value(p: PeerCanonicalView) -> BValue {
    BValue::Dictionary(
        put(
            put(put(Seq::empty(), "peer id", BValue::ByteString(p.id)), "ip", BValue::ByteString(p.ip)),
            "port",
            BValue::Integer(p.port),
        ),
    )
}

/// The peers as a value: a byte string or a list of dictionaries.
pub open spec fn peer_list_value(peers: PeerListView) -> BValue {
    match peers {
        PeerListView::Canonical(list) => BValue::List(
            Seq::new(list.len(), |i: int| peer_value(list[i])),
        ),
        PeerListView::Compact(bytes) => BValue::ByteString(bytes),
    }
}

/// The dictionary that describes a tracker's answer.
pub open spec fn tracker_responce_value(r: TrackerResponceView) -> BValue {
    match r {
        TrackerResponceView::Error { failure_reason } => BValue::Dictionary(
            put(Seq::empty(), "failure reason", BValue::ByteString(failure_reason)),
        ),
        TrackerResponceView::Success { info, peers } => BValue::Dictionary(
            put(
                put(
                    put(
                        put_optional(
                            put_optional(
                                put(Seq::empty(), "interval", BValue::Integer(info.interval)),
                                "min interval",
                                optional_int_value(info.min_interval),
                            ),
                            "tracker id",
                            optional_bytes_value(info.id),
                        ),
                        "complete",
                        BValue::Integer(info.complete),
                    ),
                    "incomplete",
                    BValue::Integer(info.incomplete),
                ),
                "peers",
                peer_list_value(peers),
            ),
        ),
    }
}

/// The keys of the schema are all different: each has a length and a first
/// byte that no other key of its dictionary shares.
pub proof fn lemma_tracker_keys()
    ensures
        key_bytes("failure reason").len() == 14,
        key_bytes("interval").len() == 8 && key_bytes("interval")[0] == 0x69,
        key_bytes("min interval").len() == 12,
        key_bytes("tracker id").len() == 10 && key_bytes("tracker id")[0] == 0x74,
        key_bytes("complete").len() == 8 && key_bytes("complete")[0] == 0x63,
        key_bytes("incomplete").len() == 10 && key_bytes("incomplete")[0] == 0x69,
        key_bytes("peers").len() == 5,
        key_bytes("peer id").len() == 7,
        key_bytes("ip").len() == 2,
        key_bytes("port").len() == 4,
{
    reveal_strlit("failure reason");
    reveal_strlit("interval");
    reveal_strlit("min interval");
    reveal_strlit("tracker id");
    reveal_strlit("complete");
    reveal_strlit("incomplete");
    reveal_strlit("peers");
    reveal_strlit("peer id");
    reveal_strlit("ip");
    reveal_strlit("port");
    is_ascii_spec_bytes("failure reason");
    is_ascii_spec_bytes("interval");
    is_ascii_spec_bytes("min interval");
    is_ascii_spec_bytes("tracker id");
    is_ascii_spec_bytes("complete");
    is_ascii_spec_bytes("incomplete");
    is_ascii_spec_bytes("peers");
    is_ascii_spec_bytes("peer id");
    is_ascii_spec_bytes("ip");
    is_ascii_spec_bytes("port");
}

/// A failure among the first items of a list is the failure of the whole list.
pub proof fn lemma_peers_failure(items: Seq<BValue>, n: int, e: Error)
    requires
        0 <= n <= items.len(),
        peers_of(items.take(n)) == Err::<Seq<PeerCanonicalView>, Error>(e),
    ensures
        peers_of(items) == Err::<Seq<PeerCanonicalView>, Error>(e),
    decreases items.len() - n,
{
    if n < items.len() {
        assert(items.drop_last().take(n) =~= items.take(n));
        lemma_peers_failure(items.drop_last(), n, e);
    } else {
        assert(items.take(n) =~= items);
    }
}

impl PeerCanonical {
    /// Reads one peer of the canonical form.
    pub fn parse(entry: Entry) -> (r: Result<Self, Error>)
        ensures
            match peer_of(entry@) {
                Ok(p) => r matches Ok(x) && x@ == p,
                Err(e) => r == Err::<PeerCanonical, Error>(e),
            },
    {
        let mut peer: BDictionary = match entry.parse_or_err(Error::InvalidFormat("peers")) {
            Ok(d) => d,
            Err(e) => {
                return Err(e);
            },
        };
        proof {
            lemma_tracker_keys();
        }
        let id: BString = match parse_required_primitive(&mut peer, "peer id") {
            Ok(v) => v,
            Err(e) => {
                return Err(e);
            },
        };
        let ip: BString = match parse_required_primitive(&mut peer, "ip") {
            Ok(v) => v,
            Err(e) => {
                return Err(e);
            },
        };
        let port: BInt = match parse_required_primitive(&mut peer, "port") {
            Ok(v) => v,
            Err(e) => {
                return Err(e);
            },
        };
        Ok(PeerCanonical { id, ip, port })
    }

    /// The bencode value that describes the peer.
    pub fn to_entry(&self) -> (e: Entry)
        ensures
            e@ == peer_value(self@),
    {
        let mut d = BDictionary::new();
        d.insert(key("peer id"), bytes_entry(&self.id));
        d.insert(key("ip"), bytes_entry(&self.ip));
        d.insert(key("port"), Entry::Integer(self.port));
        Entry::Dictionary(d)
    }
}

impl PeerList {
    /// Reads the peers of an answer from its dictionary.
    pub fn parse(answer: &mut BDictionary) -> (r: Result<Self, Error>)
        ensures
            final(answer).map() == old(answer).map().remove(key_bytes("peers")),
            match peer_list_of(old(answer).map()) {
                Ok(p) => r matches Ok(x) && x@ == p,
                Err(e) => r == Err::<PeerList, Error>(e),
            },
    {
        let entry = match answer.remove("peers".as_bytes()) {
            Some(entry) => entry,
            None => {
                return Err(Error::MissingField("peers"));
            },
        };
        match entry {
            Entry::String(bytes) => Ok(PeerList::Compact(bytes)),
            Entry::List(list) => {
                let ghost items = list_view(list@);
                let mut peers: Vec<PeerCanonical> = Vec::new();
                assert(items.take(0) =~= Seq::<BValue>::empty());
                assert(peer_views(peers@) =~= Seq::<PeerCanonicalView>::empty());
                for item in iter: list
                    invariant
                        answer.map() == old(answer).map().remove(key_bytes("peers")),
                        field(old(answer).map(), "peers") == Some(BValue::List(items)),
                        items == list_view(iter.seq()),
                        peers@.len() == iter.index(),
                        peers_of(items.take(iter.index() as int)) == Ok::<
                            Seq<PeerCanonicalView>,
                            Error,
                        >(peer_views(peers@)),
                {
                    let ghost n = iter.index() as int;
                    assert(item@ == items[n]);
                    assert(items.take(n + 1).drop_last() =~= items.take(n));
                    match PeerCanonical::parse(item) {
                        Ok(peer) => {
                            assert(peer_views(peers@.push(peer)) =~= peer_views(peers@).push(
                                peer@,
                            ));
                            peers.push(peer);
                        },
                        Err(e) => {
                            proof {
                                lemma_peers_failure(items, n + 1, e);
                            }
                            return Err(e);
                        },
                    }
                }
                assert(items.take(items.len() as int) =~= items);
                Ok(PeerList::Canonical(peers))
            },
            _ => Err(Error::InvalidFormat("peers")),
        }
    }

    /// The bencode value that describes the peers.
    pub fn to_entry(&self) -> (e: Entry)
        ensures
            e@ == peer_list_value(self@),
    {
        match self {
            PeerList::Compact(bytes) => bytes_entry(bytes),
            PeerList::Canonical(peers) => {
                let mut list: BList = Vec::new();
                let mut i: usize = 0;
                while i < peers.len()
                    invariant
                        i <= peers.len(),
                        list@.len() == i,
                        forall|j: int|
                            0 <= j < i ==> (#[trigger] list@[j])@ == peer_value(peers@[j]@),
                    decreases peers.len() - i,
                {
                    list.push(peers[i].to_entry());
                    i += 1;
                }
                assert(list_view(list@) =~= peer_list_value(self@)->List_0);
                Entry::List(list)
            },
        }
    }
}

impl TrackerInfo {
    /// Reads the figures of an answer from its dictionary.
    pub fn parse(answer: &mut BDictionary) -> (r: Result<Self, Error>)
        ensures
            match tracker_info_of(old(answer).map()) {
                Ok(i) => r matches Ok(x) && x@ == i,
                Err(e) => r == Err::<TrackerInfo, Error>(e),
            },
            final(answer).map() == tracker_info_left(old(answer).map()),
    {
        proof {
            lemma_tracker_keys();
        }
        let interval: BInt = match parse_required_primitive(answer, "interval") {
            Ok(v) => v,
            Err(e) => {
                return Err(e);
            },
        };
        let complete: BInt = match parse_required_primitive(answer, "complete") {
            Ok(v) => v,
            Err(e) => {
                return Err(e);
            },
        };
        let incomplete: BInt = match parse_required_primitive(answer, "incomplete") {
            Ok(v) => v,
            Err(e) => {
                return Err(e);
            },
        };
        let min_interval: Option<BInt> = parse_optional_primitive(answer, "min interval");
        let id: Option<BString> = parse_optional_primitive(answer, "tracker id");
        Ok(TrackerInfo { interval, min_interval, id, complete, incomplete })
    }
}

impl TrackerResponce {
    /// Reads a tracker's answer from its bencode value.
    pub fn parse(entry: Entry) -> (r: Result<Self, Error>)
        ensures
            match tracker_responce_of(entry@) {
                Ok(t) => r matches Ok(x) && x@ == t,
                Err(e) => r == Err::<TrackerResponce, Error>(e),
            },
    {
        let mut answer: BDictionary = match entry.parse_or_err(
            Error::InvalidFormat("tracker response"),
        ) {
            Ok(d) => d,
            Err(e) => {
                return Err(e);
            },
        };
        proof {
            lemma_tracker_keys();
        }
        if answer.contains_key("failure reason".as_bytes()) {
            match parse_required_primitive::<BString>(&mut answer, "failure reason") {
                Ok(failure_reason) => Ok(TrackerResponce::Error { failure_reason }),
                Err(e) => Err(e),
            }
        } else {
            let info = match TrackerInfo::parse(&mut answer) {
                Ok(info) => info,
                Err(e) => {
                    return Err(e);
                },
            };
            match PeerList::parse(&mut answer) {
                Ok(peers) => Ok(TrackerResponce::Success { info, peers }),
                Err(e) => Err(e),
            }
        }
    }

    /// The bencode value that describes the answer.
    pub fn to_entry(&self) -> (e: Entry)
        ensures
            e@ == tracker_responce_value(self@),
    {
        let mut d = BDictionary::new();
        match self {
            TrackerResponce::Error { failure_reason } => {
                d.insert(key("failure reason"), bytes_entry(failure_reason));
            },
            TrackerResponce::Success { info, peers } => {
                d.insert(key("interval"), Entry::Integer(info.interval));
                let min_interval = match info.min_interval {
                    Some(secs) => Some(Entry::Integer(secs)),
                    None => None,
                };
                insert_optional(&mut d, "min interval", min_interval);
                insert_optional(&mut d, "tracker id", optional_bytes_entry(&info.id));
                d.insert(key("complete"), Entry::Integer(info.complete));
                d.insert(key("incomplete"), Entry::Integer(info.incomplete));
                d.insert(key("peers"), peers.to_entry());
            },
        }
        Entry::Dictionary(d)
    }
}

/// A peer written as a dictionary is read back as it was.
pub proof fn lemma_peer_round_trip(p: PeerCanonicalView)
    ensures
        peer_of(peer_value(p)) == Ok::<PeerCanonicalView, Error>(p),
{
    lemma_tracker_keys();
    lemma_as_map_empty();
    let d1 = put(Seq::empty(), "peer id", BValue::ByteString(p.id));
    lemma_put(Seq::empty(), "peer id", BValue::ByteString(p.id));
    let d2 = put(d1, "ip", BValue::ByteString(p.ip));
    lemma_put(d1, "ip", BValue::ByteString(p.ip));
    let d3 = put(d2, "port", BValue::Integer(p.port));
    lemma_put(d2, "port", BValue::Integer(p.port));
    let m = as_map(d3);
    assert(field(m, "peer id") == Some(BValue::ByteString(p.id)));
    assert(field(m, "ip") == Some(BValue::ByteString(p.ip)));
    assert(field(m, "port") == Some(BValue::Integer(p.port)));
}

/// Peers written as a list of dictionaries are read back as they were.
pub proof fn lemma_peers_round_trip(peers: Seq<PeerCanonicalView>)
    ensures
        peers_of(peer_list_value(PeerListView::Canonical(peers))->List_0) == Ok::<
            Seq<PeerCanonicalView>,
            Error,
        >(peers),
    decreases peers.len(),
{
    let items = peer_list_value(PeerListView::Canonical(peers))->List_0;
    if peers.len() == 0 {
        assert(peers =~= Seq::empty());
    } else {
        let head = peers.drop_last();
        lemma_peers_round_trip(head);
        assert(items.drop_last() =~= peer_list_value(PeerListView::Canonical(head))->List_0);
        assert(items.last() == peer_value(peers.last()));
        lemma_peer_round_trip(peers.last());
        assert(head.push(peers.last()) =~= peers);
    }
}

/// A tracker's answer written as a dictionary is read back as it was.
pub proof fn lemma_tracker_responce_round_trip(r: TrackerResponceView)
    ensures
        tracker_responce_of(tracker_responce_value(r)) == Ok::<TrackerResponceView, Error>(r),
{
    lemma_tracker_keys();
    lemma_as_map_empty();
    match r {
        TrackerResponceView::Error { failure_reason } => {
            lemma_put(Seq::empty(), "failure reason", BValue::ByteString(failure_reason));
            let m = as_map(put(Seq::empty(), "failure reason", BValue::ByteString(failure_reason)));
            assert(field(m, "failure reason") == Some(BValue::ByteString(failure_reason)));
        },
        TrackerResponceView::Success { info, peers } => {
            let d1 = put(Seq::empty(), "interval", BValue::Integer(info.interval));
            lemma_put(Seq::empty(), "interval", BValue::Integer(info.interval));
            let d2 = put_optional(d1, "min interval", optional_int_value(info.min_interval));
            lemma_put_optional(d1, "min interval", optional_int_value(info.min_interval));
            let d3 = put_optional(d2, "tracker id", optional_bytes_value(info.id));
            lemma_put_optional(d2, "tracker id", optional_bytes_value(info.id));
            let d4 = put(d3, "complete", BValue::Integer(info.complete));
            lemma_put(d3, "complete", BValue::Integer(info.complete));
            let d5 = put(d4, "incomplete", BValue::Integer(info.incomplete));
            lemma_put(d4, "incomplete", BValue::Integer(info.incomplete));
            let d6 = put(d5, "peers", peer_list_value(peers));
            lemma_put(d5, "peers", peer_list_value(peers));
            let m = as_map(d6);
            assert(!m.dom().contains(key_bytes("failure reason")));
            assert(field(m, "interval") == Some(BValue::Integer(info.interval)));
            assert(field(m, "min interval") == optional_int_value(info.min_interval));
            assert(field(m, "tracker id") == optional_bytes_value(info.id));
            assert(field(m, "complete") == Some(BValue::Integer(info.complete)));
            assert(field(m, "incomplete") == Some(BValue::Integer(info.incomplete)));
            assert(field(m, "peers") == Some(peer_list_value(peers)));
            assert(optional_int(m, "min interval") == info.min_interval);
            assert(optional_bytes(m, "tracker id") == info.id);
            assert(tracker_info_of(m) == Ok::<TrackerInfoView, Error>(info));
            if let PeerListView::Canonical(list) = peers {
                lemma_peers_round_trip(list);
            }
        },
    }
}

} // verus!
