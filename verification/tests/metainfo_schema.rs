use bitrain_core::bencoded::codec::{BDecode, BEncode};
use bitrain_core::bencoded::document::Bencode;
use bitrain_core::bencoded::encoding::{BDictionary, Entry, Error};
use bitrain_core::bencoded::metainfo::{
    parse_optional_primitive, parse_required, parse_required_primitive,
};
use bitrain_core::bencoded::{BString, FileInfo, Files, Info, Metainfo, Parser, Saver};
use bitrain_core::stream::ByteReader;

const PIECES: [u8; 20] = [
    0x5c, 0xc5, 0xe6, 0x52, 0xbe, 0x0d, 0xe6, 0xf2, 0x78, 0x05, 0xb3, 0x04, 0x64, 0xff, 0x9b, 0x00,
    0xf4, 0x89, 0xf0, 0xc9,
];

fn sample_torrent() -> Vec<u8> {
    let mut bytes = Vec::new();
    bytes.extend_from_slice(b"d8:announce35:udp://tracker.openbittorrent.com:80");
    bytes.extend_from_slice(b"13:creation datei1327049827e");
    bytes.extend_from_slice(b"4:infod6:lengthi20e4:name10:sample.txt12:piece lengthi65536e6:pieces20:");
    bytes.extend_from_slice(&PIECES);
    bytes.extend_from_slice(b"7:privatei1eee");
    bytes
}

fn info() -> Info {
    Info {
        piece_length: 65536,
        pieces: BString(PIECES.to_vec()),
        private: Some(true),
        name: "sample.txt".to_owned(),
        files: Files::Single { length: 20, md5sum: None },
    }
}

fn metainfo() -> Metainfo {
    Metainfo {
        info: info(),
        announce: "udp://tracker.openbittorrent.com:80".to_owned(),
        announce_list: None,
        creation_date: Some(1327049827),
        comment: None,
        created_by: None,
        encoding: None,
    }
}

fn parse_metainfo(bytes: &[u8]) -> Result<Metainfo, Error> {
    let mut reader = ByteReader::new(bytes);
    Bencode.parse(&mut reader)
}

fn bstr(s: &str) -> BString {
    BString(s.as_bytes().to_vec())
}

#[test]
fn decoding() {
    let decoded = parse_metainfo(&sample_torrent()).unwrap();
    assert_eq!(decoded, metainfo());
    assert_eq!(decoded.info.piece_length, 65536);
    assert_eq!(decoded.info.name, "sample.txt");
    assert_eq!(decoded.announce, "udp://tracker.openbittorrent.com:80");
    assert_eq!(decoded.info.pieces.clone().into_inner(), PIECES.to_vec());
}

#[test]
fn encoding() {
    let mut encoded = vec![];
    Saver::<Metainfo>::save(&Bencode, &metainfo(), &mut encoded).unwrap();
    assert_eq!(encoded, sample_torrent());
}

#[test]
fn sample_torrent_round_trips() {
    let bytes = sample_torrent();
    let decoded = parse_metainfo(&bytes).unwrap();
    assert_eq!(decoded.to_entry().encode(), bytes);
}

#[test]
fn multiple_files_round_trip() {
    let value = Metainfo {
        info: Info {
            piece_length: 16384,
            pieces: BString(vec![7; 40]),
            private: Some(false),
            name: "album".to_owned(),
            files: Files::Multiple {
                files: vec![
                    FileInfo {
                        length: 3,
                        md5sum: Some(bstr("0123456789abcdef0123456789abcdef")),
                        path: vec!["disc 1".to_owned(), "01.flac".to_owned()],
                    },
                    FileInfo { length: 0, md5sum: None, path: vec!["cover.png".to_owned()] },
                ],
            },
        },
        announce: "http://tracker.example/announce".to_owned(),
        announce_list: Some(vec![
            vec!["http://a.example".to_owned(), "http://b.example".to_owned()],
            vec![],
            vec!["udp://c.example:1".to_owned()],
        ]),
        creation_date: Some(0),
        comment: Some("caf\u{e9}".to_owned()),
        created_by: Some("bitrain 0.1".to_owned()),
        encoding: Some("UTF-8".to_owned()),
    };
    let bytes = value.to_entry().encode();
    assert_eq!(parse_metainfo(&bytes), Ok(value.clone()));
    let expected_info: &[u8] = b"4:infod5:filesld6:lengthi3e6:md5sum32:0123456789abcdef0123456789abcdef4:pathl6:disc 17:01.flaceed6:lengthi0e4:pathl9:cover.pngeee4:name5:album12:piece lengthi16384e6:pieces40:";
    assert!(bytes.windows(expected_info.len()).any(|w| w == expected_info));
    assert!(bytes.starts_with(b"d8:announce31:http://tracker.example/announce13:announce-listll16:http://a.example16:http://b.exampleelel17:udp://c.example:1ee7:comment5:caf\xc3\xa910:created by11:bitrain 0.113:creation datei0e8:encoding5:UTF-84:infod"));
    assert!(bytes.ends_with(b"7:privatei0eee"));
}

#[test]
fn metainfo_wants_a_dictionary() {
    assert_eq!(Metainfo::parse(Entry::Integer(1)), Err(Error::InvalidFormat("metainfo")));
    assert_eq!(Info::parse(Entry::List(vec![])), Err(Error::InvalidFormat("info")));
    assert_eq!(FileInfo::parse(Entry::String(bstr("x"))), Err(Error::InvalidFormat("files")));
}

#[test]
fn required_fields_are_asked_for_in_order() {
    assert_eq!(parse_metainfo(b"de"), Err(Error::MissingField("info")));
    assert_eq!(parse_metainfo(b"d4:infoi1ee"), Err(Error::InvalidFormat("info")));
    assert_eq!(parse_metainfo(b"d4:infodee"), Err(Error::MissingField("piece length")));
    assert_eq!(
        parse_metainfo(b"d4:infod12:piece length1:xee"),
        Err(Error::InvalidFormat("piece length"))
    );
    assert_eq!(
        parse_metainfo(b"d4:infod12:piece lengthi0eee"),
        Err(Error::InvalidFormat("piece length"))
    );
    assert_eq!(
        parse_metainfo(b"d4:infod12:piece lengthi1eee"),
        Err(Error::MissingField("pieces"))
    );
    assert_eq!(
        parse_metainfo(b"d4:infod12:piece lengthi1e6:piecesi1eee"),
        Err(Error::InvalidFormat("pieces"))
    );
    assert_eq!(
        parse_metainfo(b"d4:infod12:piece lengthi1e6:pieces3:abcee"),
        Err(Error::InvalidFormat("pieces"))
    );
    assert_eq!(
        parse_metainfo(b"d4:infod12:piece lengthi1e6:pieces0:ee"),
        Err(Error::MissingField("name"))
    );
    assert_eq!(
        parse_metainfo(b"d4:infod4:name2:\xff\xfe12:piece lengthi1e6:pieces0:ee"),
        Err(Error::InvalidFormat("name"))
    );
    assert_eq!(
        parse_metainfo(b"d4:infod4:name1:n12:piece lengthi1e6:pieces0:ee"),
        Err(Error::MissingField("length"))
    );
    assert_eq!(
        parse_metainfo(b"d4:infod6:lengthi1e4:name1:n12:piece lengthi1e6:pieces0:ee"),
        Err(Error::MissingField("announce"))
    );
    assert_eq!(
        parse_metainfo(b"d8:announcei1e4:infod6:lengthi1e4:name1:n12:piece lengthi1e6:pieces0:ee"),
        Err(Error::InvalidFormat("announce"))
    );
    assert_eq!(parse_metainfo(b"d4:info"), Err(Error::InvalidFormat("bencode")));
    assert_eq!(parse_metainfo(b"d4:infod"), Err(Error::UnexpectedEOF));
}

#[test]
fn optional_fields_are_lenient() {
    let bytes = b"d8:announce1:a13:announce-listi5e7:commenti1e10:created byle13:creation date1:x8:encoding2:\xff\xff4:infod6:lengthi1e6:md5sumi9e4:name1:n12:piece lengthi1e6:pieces0:7:private3:yesee";
    let decoded = parse_metainfo(bytes).unwrap();
    assert_eq!(decoded.announce_list, None);
    assert_eq!(decoded.comment, None);
    assert_eq!(decoded.created_by, None);
    assert_eq!(decoded.creation_date, None);
    assert_eq!(decoded.encoding, None);
    assert_eq!(decoded.info.private, None);
    assert_eq!(decoded.info.files, Files::Single { length: 1, md5sum: None });
}

#[test]
fn private_is_true_for_one_alone() {
    let with = |n: &str| {
        let text = format!("d8:announce1:a4:infod6:lengthi1e4:name1:n12:piece lengthi1e6:pieces0:7:privatei{}eee", n);
        parse_metainfo(text.as_bytes()).unwrap().info.private
    };
    assert_eq!(with("1"), Some(true));
    assert_eq!(with("0"), Some(false));
    assert_eq!(with("2"), Some(false));
}

#[test]
fn announce_list_passes_over_what_is_no_tier() {
    let list = vec![
        Entry::List(vec![Entry::String(bstr("a")), Entry::String(bstr("b"))]),
        Entry::Integer(3),
        Entry::List(vec![Entry::String(bstr("c")), Entry::Integer(1)]),
        Entry::List(vec![Entry::String(BString(vec![0xff]))]),
        Entry::List(vec![]),
        Entry::List(vec![Entry::String(bstr("d"))]),
    ];
    assert_eq!(
        Metainfo::parse_announce_list(Some(list)),
        Some(vec![vec!["a".to_owned(), "b".to_owned()], vec![], vec!["d".to_owned()]])
    );
    assert_eq!(Metainfo::parse_announce_list(None), None);
    assert_eq!(Metainfo::parse_announce_list(Some(vec![])), Some(vec![]));
}

#[test]
fn files_key_selects_the_variant() {
    let mut reader = ByteReader::new(b"d5:filesld6:lengthi5e4:pathl1:a1:beee6:lengthi9ee");
    let mut d = BDictionary::decode(&mut reader).unwrap();
    assert_eq!(
        Info::parse_file_info(&mut d),
        Ok(Files::Multiple {
            files: vec![FileInfo {
                length: 5,
                md5sum: None,
                path: vec!["a".to_owned(), "b".to_owned()]
            }]
        })
    );
    let mut reader = ByteReader::new(b"d5:filesi1e6:lengthi9ee");
    let mut d = BDictionary::decode(&mut reader).unwrap();
    assert_eq!(Info::parse_file_info(&mut d), Err(Error::InvalidFormat("files")));
    let mut reader = ByteReader::new(b"d6:lengthi9e6:md5sum2:abe");
    let mut d = BDictionary::decode(&mut reader).unwrap();
    assert_eq!(
        Info::parse_file_info(&mut d),
        Ok(Files::Single { length: 9, md5sum: Some(bstr("ab")) })
    );
}

#[test]
fn file_info_wants_a_path_of_texts_and_a_length() {
    let parse = |bytes: &[u8]| {
        let mut reader = ByteReader::new(bytes);
        FileInfo::parse(Entry::decode(&mut reader).unwrap())
    };
    assert_eq!(parse(b"de"), Err(Error::MissingField("path")));
    assert_eq!(parse(b"d4:pathi1ee"), Err(Error::InvalidFormat("path")));
    assert_eq!(parse(b"d4:pathlee"), Err(Error::InvalidFormat("path")));
    assert_eq!(parse(b"d4:pathli1eee"), Err(Error::InvalidFormat("path")));
    assert_eq!(parse(b"d4:pathl1:\xffee"), Err(Error::InvalidFormat("path")));
    assert_eq!(parse(b"d4:pathl1:aee"), Err(Error::MissingField("length")));
    assert_eq!(parse(b"d6:length1:x4:pathl1:aee"), Err(Error::InvalidFormat("length")));
    assert_eq!(
        parse(b"d6:lengthi4e4:pathl1:aee"),
        Ok(FileInfo { length: 4, md5sum: None, path: vec!["a".to_owned()] })
    );
    let list = b"d5:filesld6:lengthi4e4:pathl1:aeed4:pathleee4:name1:n12:piece lengthi1e6:pieces0:e";
    let mut reader = ByteReader::new(list);
    assert_eq!(
        Info::parse(Entry::decode(&mut reader).unwrap()),
        Err(Error::InvalidFormat("path"))
    );
}

#[test]
fn field_helpers_take_the_key_out() {
    let mut reader = ByteReader::new(b"d1:ai1e1:b1:x1:cle1:dd1:zi0eee");
    let mut d = BDictionary::decode(&mut reader).unwrap();
    assert_eq!(parse_required_primitive::<u64>(&mut d, "a"), Ok(1));
    assert!(!d.contains_key(b"a"));
    assert_eq!(parse_required_primitive::<u64>(&mut d, "a"), Err(Error::MissingField("a")));
    assert_eq!(parse_required_primitive::<u64>(&mut d, "b"), Err(Error::InvalidFormat("b")));
    assert!(!d.contains_key(b"b"));
    assert_eq!(parse_optional_primitive::<String>(&mut d, "c"), None);
    assert!(!d.contains_key(b"c"));
    assert_eq!(parse_optional_primitive::<String>(&mut d, "nope"), None);
    let inner = parse_required(&mut d, "d", |e: Entry| e.parse_or_err::<BDictionary, Error>(Error::InvalidValue));
    assert_eq!(inner.unwrap().get(b"z"), Some(&Entry::Integer(0)));
    assert_eq!(d.len(), 0);
    let missing = parse_required(&mut d, "d", |e: Entry| Ok::<Entry, Error>(e));
    assert_eq!(missing, Err(Error::MissingField("d")));
}

#[test]
fn typed_extraction_fails_on_another_shape() {
    assert_eq!(Entry::Integer(5).parse::<u64>(), Some(5));
    assert_eq!(Entry::Integer(5).parse::<BString>(), None);
    assert_eq!(Entry::Integer(5).parse::<String>(), None);
    assert_eq!(Entry::String(bstr("abc")).parse::<String>(), Some("abc".to_owned()));
    assert_eq!(Entry::String(bstr("abc")).parse::<BString>(), Some(bstr("abc")));
    assert_eq!(Entry::String(BString(vec![0xc3, 0xa9])).parse::<String>(), Some("\u{e9}".to_owned()));
    assert_eq!(Entry::String(BString(vec![0xc3])).parse::<String>(), None);
    assert_eq!(Entry::String(BString(vec![0xff, 0x41])).parse::<String>(), None);
    assert_eq!(Entry::List(vec![Entry::Integer(1)]).parse::<Vec<Entry>>(), Some(vec![Entry::Integer(1)]));
    assert_eq!(Entry::List(vec![]).parse::<BDictionary>(), None);
    assert_eq!(Entry::Dictionary(BDictionary::new()).parse::<BDictionary>(), Some(BDictionary::new()));
    assert_eq!(Entry::List(vec![]).parse_or_err::<u64, &str>("no"), Err("no"));
    assert_eq!(Entry::Integer(3).parse_or_err::<u64, &str>("no"), Ok(3));
}

#[test]
fn dictionary_binds_and_unbinds() {
    let mut d = BDictionary::new();
    assert_eq!(d.len(), 0);
    assert_eq!(d.insert(bstr("b"), Entry::Integer(1)), None);
    assert_eq!(d.insert(bstr("a"), Entry::Integer(2)), None);
    assert_eq!(d.insert(bstr("c"), Entry::Integer(3)), None);
    assert_eq!(d.insert(bstr("b"), Entry::Integer(4)), Some(Entry::Integer(1)));
    assert_eq!(d.len(), 3);
    let keys: Vec<Vec<u8>> = d.entries().iter().map(|e| e.0 .0.clone()).collect();
    assert_eq!(keys, vec![b"a".to_vec(), b"b".to_vec(), b"c".to_vec()]);
    assert!(d.contains_key(b"a"));
    assert!(!d.contains_key(b"ab"));
    assert_eq!(d.get(b"b"), Some(&Entry::Integer(4)));
    assert_eq!(d.get(b"z"), None);
    assert_eq!(d.remove(b"a"), Some(Entry::Integer(2)));
    assert_eq!(d.remove(b"a"), None);
    assert_eq!(d.len(), 2);
}

#[test]
fn dictionary_orders_keys_by_raw_bytes() {
    let mut d = BDictionary::new();
    for key in [&b"b"[..], b"", b"ab", b"a", b"\xff", b"B", b"a\x00"] {
        d.insert(BString(key.to_vec()), Entry::List(vec![]));
    }
    let keys: Vec<Vec<u8>> = d.entries().iter().map(|e| e.0 .0.clone()).collect();
    let expected: Vec<Vec<u8>> = vec![
        b"".to_vec(),
        b"B".to_vec(),
        b"a".to_vec(),
        b"a\x00".to_vec(),
        b"ab".to_vec(),
        b"b".to_vec(),
        b"\xff".to_vec(),
    ];
    assert_eq!(keys, expected);
}

#[test]
fn every_type_decodes_and_encodes_its_own_production() {
    let mut reader = ByteReader::new(b"i5e3:abcli1eed1:ai2eei9e");
    assert_eq!(u64::decode(&mut reader), Ok(5));
    assert_eq!(BString::decode(&mut reader), Ok(bstr("abc")));
    assert_eq!(Vec::<Entry>::decode(&mut reader), Ok(vec![Entry::Integer(1)]));
    let d = BDictionary::decode(&mut reader).unwrap();
    assert_eq!(d.get(b"a"), Some(&Entry::Integer(2)));
    assert_eq!(BDictionary::decode(&mut reader).err(), Some(Error::InvalidFormat("bencode")));
    assert_eq!(Vec::<Entry>::decode(&mut reader), Err(Error::InvalidFormat("bencode")));
    assert_eq!(BString::decode(&mut reader), Err(Error::InvalidValue));
    assert_eq!(reader.rest(), b"i9e");

    assert_eq!(5u64.encode(), b"i5e".to_vec());
    assert_eq!(bstr("abc").encode(), b"3:abc".to_vec());
    assert_eq!(vec![Entry::Integer(1)].encode(), b"li1ee".to_vec());
    assert_eq!(d.encode(), b"d1:ai2ee".to_vec());
    let mut out = b"x".to_vec();
    Entry::Integer(0).encode_into_stream(&mut out);
    bstr("").encode_into_stream(&mut out);
    assert_eq!(out, b"xi0e0:".to_vec());
    let mut out = vec![];
    Saver::<Entry>::save(&Bencode, &Entry::List(vec![]), &mut out).unwrap();
    assert_eq!(out, b"le".to_vec());
    let mut reader = ByteReader::new(b"le");
    assert_eq!(Parser::<Entry>::parse(&Bencode, &mut reader), Ok(Entry::List(vec![])));
}
