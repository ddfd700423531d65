//! Whole documents: from bytes to typed values and back.
use vstd::prelude::*;
use super::codec::BDecode;
use super::encoding::{encode_entry_into, Entry, Error};
use super::grammar::{encode_value, parse_value};
use super::metainfo::{metainfo_of, metainfo_value};
use super::value::well_formed;
use super::{Metainfo, Parser, Saver};
use crate::stream::ByteReader;

verus! {

/// The parser and saver of this library: documents in the canonical
/// bencode grammar.
#[derive(Debug, Clone, Copy, Default, PartialEq, Eq)]
pub struct Bencode;

impl Parser<Entry> for Bencode {
    type Err = Error;

    /// Reads one value from the source and moves behind it.
    fn parse<'a>(&self, source: &mut ByteReader<'a>) -> (r: Result<Entry, Error>)
        ensures
            final(source).source() == old(source).source(),
            ({
                let res: Result<Entry, Error> = r;
                match parse_value(old(source).remaining()) {
                    Ok((v, rest)) => res is Ok && res->Ok_0@ == v && final(source).remaining()
                        == rest,
                    Err(e) => res == Err::<Entry, Error>(e) && final(source).position() == old(
                        source,
                    ).position(),
                }
            }),
    {
        Entry::decode(source)
    }
}

impl Saver<Entry> for Bencode {
    type Err = Error;

    /// Appends the value's bytes to the target. Never fails.
    fn save(&self, item: &Entry, target: &mut Vec<u8>) -> (r: Result<(), Error>)
        ensures
            r is Ok,
            final(target)@ == old(target)@ + encode_value(item@),
            well_formed(item@),
    {
        encode_entry_into(item, target);
        Ok(())
    }
}

impl Parser<Metainfo> for Bencode {
    type Err = Error;

    /// Reads one value from the source, moves behind it, and reads the
    /// value as a metadata file.
    fn parse<'a>(&self, source: &mut ByteReader<'a>) -> (r: Result<Metainfo, Error>)
        ensures
            final(source).source() == old(source).source(),
            ({
                let res: Result<Metainfo, Error> = r;
                match parse_value(old(source).remaining()) {
                    Ok((v, rest)) => final(source).remaining() == rest && match metainfo_of(v) {
                        Ok(m) => res is Ok && res->Ok_0@ == m,
                        Err(e) => res == Err::<Metainfo, Error>(e),
                    },
                    Err(e) => res == Err::<Metainfo, Error>(e) && final(source).position() == old(
                        source,
                    ).position(),
                }
            }),
    {
        match Entry::decode(source) {
            Ok(entry) => Metainfo::parse(entry),
            Err(e) => Err(e),
        }
    }
}

impl Saver<Metainfo> for Bencode {
    type Err = Error;

    /// Appends the bytes of the metadata file to the target, keys in
    /// ascending order. Never fails.
    fn save(&self, item: &Metainfo, target: &mut Vec<u8>) -> (r: Result<(), Error>)
        ensures
            r is Ok,
            final(target)@ == old(target)@ + encode_value(metainfo_value(item@)),
    {
        let entry = item.to_entry();
        encode_entry_into(&entry, target);
        Ok(())
    }
}

} // verus!
