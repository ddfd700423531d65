use bitrain_core::bencoded::codec::{collect_up_to, BDecode, BEncode};
use bitrain_core::bencoded::encoding::{parse_utf8_bytes, BDictionary, Entry, Error};
use bitrain_core::bencoded::BString;
use bitrain_core::stream::ByteReader;

fn bstr(s: &str) -> BString {
    BString(s.as_bytes().to_vec())
}

fn decode_all(bytes: &[u8]) -> Result<Entry, Error> {
    let mut reader = ByteReader::new(bytes);
    Entry::decode(&mut reader)
}

#[test]
fn encodes_integer_literal() {
    assert_eq!(Entry::Integer(42).encode(), b"i42e".to_vec());
}

#[test]
fn encodes_string_literal() {
    assert_eq!(Entry::String(bstr("spam")).encode(), b"4:spam".to_vec());
}

#[test]
fn encodes_list_literal() {
    let list = Entry::List(vec![Entry::Integer(1), Entry::Integer(2)]);
    assert_eq!(list.encode(), b"li1ei2ee".to_vec());
}

#[test]
fn encodes_dictionary_literal() {
    let mut d = BDictionary::new();
    d.insert(bstr("spam"), Entry::String(bstr("eggs")));
    d.insert(bstr("cow"), Entry::String(bstr("moo")));
    assert_eq!(Entry::Dictionary(d).encode(), b"d3:cow3:moo4:spam4:eggse".to_vec());
}

#[test]
fn dictionary_encoding_ignores_insertion_order() {
    let mut first = BDictionary::new();
    first.insert(bstr("b"), Entry::Integer(1));
    first.insert(bstr("a"), Entry::Integer(2));
    let mut second = BDictionary::new();
    second.insert(bstr("a"), Entry::Integer(2));
    second.insert(bstr("b"), Entry::Integer(1));
    assert_eq!(first, second);
    let bytes = Entry::Dictionary(first).encode();
    assert_eq!(bytes, Entry::Dictionary(second).encode());
    assert_eq!(bytes, b"d1:ai2e1:bi1ee".to_vec());
}

#[test]
fn minimal_samples_round_trip_through_decode_and_encode() {
    let samples: Vec<&[u8]> = vec![
        b"i0e",
        b"i42e",
        b"i18446744073709551615e",
        b"0:",
        b"4:spam",
        b"le",
        b"de",
        b"li1ei2ee",
        b"d3:cow3:moo4:spam4:eggse",
        b"d4:infod6:lengthi20e4:name3:abce4:listl1:a1:bli7eeee",
    ];
    for sample in samples {
        let entry = decode_all(sample).unwrap();
        assert_eq!(entry.encode(), sample.to_vec());
    }
}

#[test]
fn values_round_trip_through_encode_and_decode() {
    let mut inner = BDictionary::new();
    inner.insert(bstr("zeta"), Entry::List(vec![]));
    inner.insert(bstr(""), Entry::Integer(u64::MAX));
    inner.insert(BString(vec![0xff, 0x00, 0x65]), Entry::String(BString(vec![0x3a, 0x65, 0x00])));
    let mut outer = BDictionary::new();
    outer.insert(bstr("inner"), Entry::Dictionary(inner));
    outer.insert(bstr("items"), Entry::List(vec![Entry::Integer(0), Entry::String(bstr("e"))]));
    let value = Entry::Dictionary(outer);
    let bytes = value.encode();
    let mut reader = ByteReader::new(&bytes);
    let decoded = Entry::decode(&mut reader).unwrap();
    assert_eq!(decoded, value);
    assert_eq!(reader.remaining_len(), 0);
}

#[test]
fn decode_leaves_what_follows_the_value() {
    let bytes = b"i7e4:spam";
    let mut reader = ByteReader::new(bytes);
    assert_eq!(Entry::decode(&mut reader), Ok(Entry::Integer(7)));
    assert_eq!(reader.rest(), b"4:spam");
    assert_eq!(Entry::decode(&mut reader), Ok(Entry::String(bstr("spam"))));
    assert_eq!(reader.remaining_len(), 0);
    assert_eq!(Entry::decode(&mut reader), Err(Error::InvalidFormat("bencode")));
}

#[test]
fn repeated_key_keeps_the_last_value() {
    let decoded = decode_all(b"d1:ai1e1:ai2ee").unwrap();
    let mut expected = BDictionary::new();
    expected.insert(bstr("a"), Entry::Integer(2));
    assert_eq!(decoded, Entry::Dictionary(expected));
}

#[test]
fn unsorted_keys_decode_and_encode_sorted() {
    let decoded = decode_all(b"d1:bi1e1:ai2ee").unwrap();
    assert_eq!(decoded.encode(), b"d1:ai2e1:bi1ee".to_vec());
}

#[test]
fn decode_rejects_what_is_no_production() {
    assert_eq!(decode_all(b""), Err(Error::InvalidFormat("bencode")));
    assert_eq!(decode_all(b"x"), Err(Error::InvalidFormat("bencode")));
    assert_eq!(decode_all(b"e"), Err(Error::InvalidFormat("bencode")));
    assert_eq!(decode_all(b"+4:spam"), Err(Error::InvalidFormat("bencode")));
    assert_eq!(decode_all(b"l?e"), Err(Error::InvalidFormat("bencode")));
}

#[test]
fn decode_rejects_bad_numbers() {
    assert_eq!(decode_all(b"ie"), Err(Error::InvalidValue));
    assert_eq!(decode_all(b"i-0e"), Err(Error::InvalidValue));
    assert_eq!(decode_all(b"i-1e"), Err(Error::InvalidValue));
    assert_eq!(decode_all(b"i1x2e"), Err(Error::InvalidValue));
    assert_eq!(decode_all(b"i18446744073709551616e"), Err(Error::InvalidValue));
    assert_eq!(decode_all(b"4x:spam"), Err(Error::InvalidValue));
    assert_eq!(decode_all(b"4spam"), Err(Error::InvalidValue));
    assert_eq!(decode_all(b"di1e1:ae"), Err(Error::InvalidValue));
}

#[test]
fn decode_accepts_leading_zeros_and_plus() {
    assert_eq!(decode_all(b"i007e"), Ok(Entry::Integer(7)));
    assert_eq!(decode_all(b"i+42e"), Ok(Entry::Integer(42)));
    assert_eq!(decode_all(b"04:spam"), Ok(Entry::String(bstr("spam"))));
}

#[test]
fn decode_reports_end_of_input() {
    assert_eq!(decode_all(b"i42"), Err(Error::UnexpectedEOF));
    assert_eq!(decode_all(b"4"), Err(Error::UnexpectedEOF));
    assert_eq!(decode_all(b"4:spa"), Err(Error::UnexpectedEOF));
    assert_eq!(decode_all(b"l"), Err(Error::UnexpectedEOF));
    assert_eq!(decode_all(b"li1e"), Err(Error::UnexpectedEOF));
    assert_eq!(decode_all(b"d"), Err(Error::UnexpectedEOF));
    assert_eq!(decode_all(b"d1:ai1e"), Err(Error::UnexpectedEOF));
    assert_eq!(decode_all(b"d1:a"), Err(Error::InvalidFormat("bencode")));
}

#[test]
fn parse_utf8_bytes_reads_decimal() {
    assert_eq!(parse_utf8_bytes(b"0"), Ok(0));
    assert_eq!(parse_utf8_bytes(b"65536"), Ok(65536));
    assert_eq!(parse_utf8_bytes(b"+9"), Ok(9));
    assert_eq!(parse_utf8_bytes(b""), Err(Error::InvalidValue));
    assert_eq!(parse_utf8_bytes(b"+"), Err(Error::InvalidValue));
    assert_eq!(parse_utf8_bytes(b"12a"), Err(Error::InvalidValue));
    assert_eq!(parse_utf8_bytes(&[0xff, 0x31]), Err(Error::InvalidValue));
}

#[test]
fn collect_up_to_stops_behind_the_delimiter() {
    let mut reader = ByteReader::new(b"12:rest");
    assert_eq!(collect_up_to(&mut reader, b':'), b"12".to_vec());
    assert_eq!(reader.rest(), b"rest");
    assert_eq!(collect_up_to(&mut reader, b':'), b"rest".to_vec());
    assert_eq!(reader.remaining_len(), 0);
}
