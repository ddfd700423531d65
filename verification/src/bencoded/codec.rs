//! Decoding from a byte source and encoding into a byte sink, type by type.
use vstd::prelude::*;
use vstd::slice::{slice_subrange, slice_to_vec};
use super::encoding::{
    decode_bytes_at, decode_entry_at, decode_int_at, decode_items_at, decode_pairs_at,
    encode_bytes_into, encode_entry_into, encode_int_into, encode_items_into, encode_pairs_into,
    find_from, list_view, BDictionary, BList, Entry, Error,
};
use super::grammar::{
    encode_value, find, parse_bytes, parse_dictionary, parse_int, parse_list, parse_value,
    DICTIONARY_PREFIX, END_SUFFIX, GRAMMAR, LIST_PREFIX,
};
use super::value::{well_formed, BValue};
use super::{BInt, BString};
use crate::stream::ByteReader;

verus! {

/// A type that can be read from bencoded bytes.
pub trait BDecode: Sized {
    /// The value as a bencode tree.
    spec fn decoded(&self) -> BValue;

    /// What the grammar makes of `input` for this type: the tree at its
    /// start and what follows it, or why there is none.
    spec fn parse(input: Seq<u8>) -> Result<(BValue, Seq<u8>), Error>;

    /// Reads one value from `bytes` and moves behind it. Where the bytes
    /// hold no such value, `bytes` stays where it was.
    fn decode<'a>(bytes: &mut ByteReader<'a>) -> (r: Result<Self, Error>)
        ensures
            final(bytes).source() == old(bytes).source(),
            match Self::parse(old(bytes).remaining()) {
                Ok((v, rest)) => r is Ok && r->Ok_0.decoded() == v && final(bytes).remaining()
                    == rest,
                Err(e) => r == Err::<Self, Error>(e) && final(bytes).position() == old(
                    bytes,
                ).position(),
            },
    ;
}

/// A type that can be written as bencoded bytes.
pub trait BEncode: Sized {
    /// The bytes that the value is written as.
    spec fn encoding(&self) -> Seq<u8>;

    /// The value's bytes.
    fn encode(&self) -> (bytes: Vec<u8>)
        ensures
            bytes@ == self.encoding(),
    ;

    /// Appends the value's bytes to `stream`.
    fn encode_into_stream(&self, stream: &mut Vec<u8>)
        ensures
            final(stream)@ == old(stream)@ + self.encoding(),
    ;
}

impl BDecode for Entry {
    open spec fn decoded(&self) -> BValue {
        self@
    }

    open spec fn parse(input: Seq<u8>) -> Result<(BValue, Seq<u8>), Error> {
        parse_value(input)
    }

    fn decode<'a>(bytes: &mut ByteReader<'a>) -> (r: Result<Self, Error>) {
        let rest = bytes.rest();
        assert(rest@.skip(0) =~= rest@);
        match decode_entry_at(rest, 0) {
            Ok((entry, p)) => {
                bytes.advance(p);
                Ok(entry)
            },
            Err(e) => Err(e),
        }
    }
}

impl BDecode for BInt {
    open spec fn decoded(&self) -> BValue {
        BValue::Integer(*self)
    }

    open spec fn parse(input: Seq<u8>) -> Result<(BValue, Seq<u8>), Error> {
        match parse_int(input) {
            Ok((n, rest)) => Ok((BValue::Integer(n), rest)),
            Err(e) => Err(e),
        }
    }

    fn decode<'a>(bytes: &mut ByteReader<'a>) -> (r: Result<Self, Error>) {
        let rest = bytes.rest();
        assert(rest@.skip(0) =~= rest@);
        match decode_int_at(rest, 0) {
            Ok((n, p)) => {
                bytes.advance(p);
                Ok(n)
            },
            Err(e) => Err(e),
        }
    }
}

impl BDecode for BString {
    open spec fn decoded(&self) -> BValue {
        BValue::ByteString(self@)
    }

    open spec fn parse(input: Seq<u8>) -> Result<(BValue, Seq<u8>), Error> {
        match parse_bytes(input) {
            Ok((s, rest)) => Ok((BValue::ByteString(s), rest)),
            Err(e) => Err(e),
        }
    }

    fn decode<'a>(bytes: &mut ByteReader<'a>) -> (r: Result<Self, Error>) {
        let rest = bytes.rest();
        assert(rest@.skip(0) =~= rest@);
        match decode_bytes_at(rest, 0) {
            Ok((s, p)) => {
                bytes.advance(p);
                Ok(s)
            },
            Err(e) => Err(e),
        }
    }
}

impl BDecode for BList {
    open spec fn decoded(&self) -> BValue {
        BValue::List(list_view(self@))
    }

    open spec fn parse(input: Seq<u8>) -> Result<(BValue, Seq<u8>), Error> {
        match parse_list(input) {
            Ok((l, rest)) => Ok((BValue::List(l), rest)),
            Err(e) => Err(e),
        }
    }

    fn decode<'a>(bytes: &mut ByteReader<'a>) -> (r: Result<Self, Error>) {
        let rest = bytes.rest();
        if rest.len() == 0 || rest[0] != LIST_PREFIX {
            return Err(Error::InvalidFormat(GRAMMAR));
        }
        assert(rest@.drop_first() =~= rest@.skip(1));
        match decode_items_at(rest, 1) {
            Ok((list, p)) => {
                bytes.advance(p);
                Ok(list)
            },
            Err(e) => Err(e),
        }
    }
}

impl BDecode for BDictionary {
    open spec fn decoded(&self) -> BValue {
        BValue::Dictionary(self@)
    }

    open spec fn parse(input: Seq<u8>) -> Result<(BValue, Seq<u8>), Error> {
        match parse_dictionary(input) {
            Ok((d, rest)) => Ok((BValue::Dictionary(d), rest)),
            Err(e) => Err(e),
        }
    }

    fn decode<'a>(bytes: &mut ByteReader<'a>) -> (r: Result<Self, Error>) {
        let rest = bytes.rest();
        if rest.len() == 0 || rest[0] != DICTIONARY_PREFIX {
            return Err(Error::InvalidFormat(GRAMMAR));
        }
        assert(rest@.drop_first() =~= rest@.skip(1));
        match decode_pairs_at(rest, 1) {
            Ok((dictionary, p)) => {
                bytes.advance(p);
                Ok(dictionary)
            },
            Err(e) => Err(e),
        }
    }
}

impl BEncode for Entry {
    open spec fn encoding(&self) -> Seq<u8> {
        encode_value(self@)
    }

    fn encode(&self) -> (bytes: Vec<u8>)
        ensures
            well_formed(self@),
    {
        let mut bytes: Vec<u8> = Vec::new();
        encode_entry_into(self, &mut bytes);
        assert(bytes@ =~= self.encoding());
        bytes
    }

    fn encode_into_stream(&self, stream: &mut Vec<u8>)
        ensures
            well_formed(self@),
    {
        encode_entry_into(self, stream);
    }
}

impl BEncode for BInt {
    open spec fn encoding(&self) -> Seq<u8> {
        encode_value(BValue::Integer(*self))
    }

    fn encode(&self) -> (bytes: Vec<u8>) {
        let mut bytes: Vec<u8> = Vec::new();
        encode_int_into(*self, &mut bytes);
        assert(bytes@ =~= self.encoding());
        bytes
    }

    fn encode_into_stream(&self, stream: &mut Vec<u8>) {
        encode_int_into(*self, stream);
    }
}

impl BEncode for BString {
    open spec fn encoding(&self) -> Seq<u8> {
        encode_value(BValue::ByteString(self@))
    }

    fn encode(&self) -> (bytes: Vec<u8>) {
        let mut bytes: Vec<u8> = Vec::new();
        encode_bytes_into(self.0.as_slice(), &mut bytes);
        assert(bytes@ =~= self.encoding());
        bytes
    }

    fn encode_into_stream(&self, stream: &mut Vec<u8>) {
        encode_bytes_into(self.0.as_slice(), stream);
    }
}

impl BEncode for BList {
    open spec fn encoding(&self) -> Seq<u8> {
        encode_value(BValue::List(list_view(self@)))
    }

    fn encode(&self) -> (bytes: Vec<u8>) {
        let mut bytes: Vec<u8> = Vec::new();
        self.encode_into_stream(&mut bytes);
        assert(bytes@ =~= self.encoding());
        bytes
    }

    fn encode_into_stream(&self, stream: &mut Vec<u8>) {
        stream.push(LIST_PREFIX);
        encode_items_into(self, stream);
        stream.push(END_SUFFIX);
        assert(stream@ =~= old(stream)@ + self.encoding());
    }
}

impl BEncode for BDictionary {
    open spec fn encoding(&self) -> Seq<u8> {
        encode_value(BValue::Dictionary(self@))
    }

    fn encode(&self) -> (bytes: Vec<u8>) {
        let mut bytes: Vec<u8> = Vec::new();
        self.encode_into_stream(&mut bytes);
        assert(bytes@ =~= self.encoding());
        bytes
    }

    fn encode_into_stream(&self, stream: &mut Vec<u8>) {
        stream.push(DICTIONARY_PREFIX);
        encode_pairs_into(self, stream);
        stream.push(END_SUFFIX);
        assert(stream@ =~= old(stream)@ + self.encoding());
    }
}

/// Reads from `iter` up to the first `delimiter` and hands out the bytes
/// before it. The delimiter is read too and is not handed out. Where there is
/// none, everything is read and handed out.
pub fn collect_up_to<'a>(iter: &mut ByteReader<'a>, delimiter: u8) -> (collected: Vec<u8>)
    ensures
        final(iter).source() == old(iter).source(),
        collected@ == old(iter).remaining().take(find(old(iter).remaining(), delimiter)),
        final(iter).remaining() == old(iter).remaining().skip(
            if find(old(iter).remaining(), delimiter) < old(iter).remaining().len() {
                find(old(iter).remaining(), delimiter) + 1
            } else {
                find(old(iter).remaining(), delimiter)
            },
        ),
{
    let rest = iter.rest();
    assert(rest@.skip(0) =~= rest@);
    let k = find_from(rest, 0, delimiter);
    let collected = slice_to_vec(slice_subrange(rest, 0, k));
    if k < rest.len() {
        iter.advance(k + 1);
    } else {
        iter.advance(k);
    }
    collected
}

} // verus!
