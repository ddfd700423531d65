use bitrain_core::bencoded::codec::{BDecode, BEncode};
use bitrain_core::bencoded::encoding::{sort_key_value_entries, Entry, Error};
use bitrain_core::bencoded::{BString, PeerCanonical, PeerList, TrackerInfo, TrackerResponce};
use bitrain_core::stream::ByteReader;

fn bstr(s: &str) -> BString {
    BString(s.as_bytes().to_vec())
}

fn parse(bytes: &[u8]) -> Result<TrackerResponce, Error> {
    let mut reader = ByteReader::new(bytes);
    TrackerResponce::parse(Entry::decode(&mut reader).unwrap())
}

#[test]
fn failure_reason_makes_an_error_answer() {
    assert_eq!(
        parse(b"d14:failure reason9:not founde"),
        Ok(TrackerResponce::Error { failure_reason: bstr("not found") })
    );
    assert_eq!(
        parse(b"d8:completei1e14:failure reason2:no10:incompletei2e8:intervali3e5:peers0:e"),
        Ok(TrackerResponce::Error { failure_reason: bstr("no") })
    );
    assert_eq!(
        parse(b"d14:failure reasoni1ee"),
        Err(Error::InvalidFormat("failure reason"))
    );
}

#[test]
fn compact_peers_round_trip() {
    let answer = TrackerResponce::Success {
        info: TrackerInfo {
            interval: 1800,
            min_interval: Some(60),
            id: Some(bstr("abc")),
            complete: 5,
            incomplete: 7,
        },
        peers: PeerList::Compact(BString(vec![127, 0, 0, 1, 0x1a, 0xe1])),
    };
    let bytes = answer.to_entry().encode();
    assert_eq!(
        bytes,
        b"d8:completei5e10:incompletei7e8:intervali1800e12:min intervali60e5:peers6:\x7f\x00\x00\x01\x1a\xe110:tracker id3:abce".to_vec()
    );
    assert_eq!(parse(&bytes), Ok(answer));
}

#[test]
fn canonical_peers_round_trip() {
    let answer = TrackerResponce::Success {
        info: TrackerInfo { interval: 0, min_interval: None, id: None, complete: 0, incomplete: 0 },
        peers: PeerList::Canonical(vec![
            PeerCanonical { id: BString(vec![1; 20]), ip: bstr("10.0.0.1"), port: 6881 },
            PeerCanonical { id: BString(vec![]), ip: bstr("::1"), port: 0 },
        ]),
    };
    let bytes = answer.to_entry().encode();
    assert_eq!(parse(&bytes), Ok(answer));
    assert_eq!(parse(b"d8:completei0e10:incompletei0e8:intervali0e5:peerslee"),
        Ok(TrackerResponce::Success {
            info: TrackerInfo { interval: 0, min_interval: None, id: None, complete: 0, incomplete: 0 },
            peers: PeerList::Canonical(vec![]),
        }));
}

#[test]
fn answers_want_their_fields() {
    assert_eq!(parse(b"i1e"), Err(Error::InvalidFormat("tracker response")));
    assert_eq!(parse(b"de"), Err(Error::MissingField("interval")));
    assert_eq!(parse(b"d8:interval1:xe"), Err(Error::InvalidFormat("interval")));
    assert_eq!(parse(b"d8:intervali1ee"), Err(Error::MissingField("complete")));
    assert_eq!(parse(b"d8:completei1e8:intervali1ee"), Err(Error::MissingField("incomplete")));
    assert_eq!(
        parse(b"d8:completei1e10:incompletei1e8:intervali1ee"),
        Err(Error::MissingField("peers"))
    );
    assert_eq!(
        parse(b"d8:completei1e10:incompletei1e8:intervali1e5:peersi1ee"),
        Err(Error::InvalidFormat("peers"))
    );
    assert_eq!(
        parse(b"d8:completei1e10:incompletei1e8:intervali1e5:peersli1eee"),
        Err(Error::InvalidFormat("peers"))
    );
    assert_eq!(
        parse(b"d8:completei1e10:incompletei1e8:intervali1e5:peersld2:ip1:aeee"),
        Err(Error::MissingField("peer id"))
    );
    assert_eq!(
        parse(b"d8:completei1e10:incompletei1e8:intervali1e5:peersld2:ip1:a7:peer id1:b4:port1:ceee"),
        Err(Error::InvalidFormat("port"))
    );
    let lenient = parse(
        b"d8:completei1e10:incompletei1e8:intervali1e12:min interval1:x5:peers0:10:tracker idi1ee",
    );
    assert_eq!(
        lenient,
        Ok(TrackerResponce::Success {
            info: TrackerInfo { interval: 1, min_interval: None, id: None, complete: 1, incomplete: 1 },
            peers: PeerList::Compact(BString(vec![])),
        })
    );
}

#[test]
fn sort_key_value_entries_is_stable() {
    let mut entries = vec![
        (bstr("b"), 1),
        (bstr("a"), 2),
        (bstr("c"), 3),
        (bstr("a"), 4),
        (bstr(""), 5),
        (bstr("ab"), 6),
        (bstr("b"), 7),
    ];
    sort_key_value_entries(&mut entries);
    assert_eq!(
        entries,
        vec![
            (bstr(""), 5),
            (bstr("a"), 2),
            (bstr("a"), 4),
            (bstr("ab"), 6),
            (bstr("b"), 1),
            (bstr("b"), 7),
            (bstr("c"), 3),
        ]
    );
    let mut none: Vec<(BString, u8)> = vec![];
    sort_key_value_entries(&mut none);
    assert!(none.is_empty());
}
