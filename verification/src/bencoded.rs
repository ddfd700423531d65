//! Bencode: the value model, its codec and the metainfo schema.
use vstd::prelude::*;

pub use self::codec::{BDecode, BEncode};
pub use self::document::Bencode;
pub use self::encoding::{BDictionary, BList, Entry, Error};

pub mod codec;
pub mod document;
pub mod encoding;
pub mod grammar;
pub mod laws;
pub mod metainfo;
pub mod schema_laws;
pub mod tracker;
pub mod typed;
pub mod value;

verus! {

/// Bencoded integer type.
pub type BInt = u64;

/// Bencoded byte string.
#[derive(Debug, PartialEq, Eq)]
pub struct BString(pub Vec<u8>);

impl Clone for BString {
    fn clone(&self) -> (copy: Self)
        ensures
            copy@ == self@,
    {
        let bytes = self.0.clone();
        assert(bytes@ =~= self.0@);
        BString(bytes)
    }
}

impl View for BString {
    type V = Seq<u8>;

    open spec fn view(&self) -> Seq<u8> {
        self.0@
    }
}

/// Reads items of type `T` from a byte source.
pub trait Parser<T>: Sized {
    type Err;

    fn parse<'a>(&self, source: &mut crate::stream::ByteReader<'a>) -> (r: Result<T, Self::Err>);
}

/// Writes items of type `T` to a byte sink.
pub trait Saver<T>: Sized {
    type Err;

    fn save(&self, item: &T, target: &mut Vec<u8>) -> (r: Result<(), Self::Err>);
}

/// What a tracker answers to an announce.
#[derive(Debug, Clone, PartialEq)]
pub enum TrackerResponce {
    Success { info: TrackerInfo, peers: PeerList },
    Error { failure_reason: BString },
}

/// The figures of a tracker's answer.
#[derive(Debug, Clone, PartialEq)]
pub struct TrackerInfo {
    /// Seconds that the client should wait between announces.
    pub interval: BInt,
    /// Seconds below which the client must not announce again.
    pub min_interval: Option<BInt>,
    /// What the client should send back on its next announces.
    pub id: Option<BString>,
    /// The number of peers with the entire file.
    pub complete: BInt,
    /// The number of peers without the entire file.
    pub incomplete: BInt,
}

/// The peers of a tracker's answer, in one of its two forms.
#[derive(Debug, Clone, PartialEq)]
pub enum PeerList {
    Canonical(Vec<PeerCanonical>),
    Compact(BString),
}

/// A peer as the canonical form lists it.
#[derive(Debug, Clone, PartialEq)]
pub struct PeerCanonical {
    pub id: BString,
    pub ip: BString,
    pub port: BInt,
}

/// Parsed `.torrent` metadata file.
#[derive(Debug, Clone, PartialEq)]
pub struct Metainfo {
    /// Describes the file(s) of the torrent.
    pub info: Info,
    /// The announce URL of the tracker.
    pub announce: String,
    /// The list of tracker tiers.
    pub announce_list: Option<Vec<Vec<String>>>,
    /// The creation time of the torrent, in seconds since the epoch.
    pub creation_date: Option<BInt>,
    /// Free-form textual comments of the author.
    pub comment: Option<String>,
    /// Name and version of the program used to create the metadata file.
    pub created_by: Option<String>,
    /// The string encoding format used to generate the pieces part of the
    /// info dictionary in the metadata file.
    pub encoding: Option<String>,
}

/// Parsed `info` section of a `.torrent` metadata file.
#[derive(Debug, Clone, PartialEq)]
pub struct Info {
    /// Number of bytes in each piece; positive.
    pub piece_length: BInt,
    /// The concatenation of 20-byte SHA1 hash values, one per piece.
    pub pieces: BString,
    /// Whether peers are to be had from the trackers of the metainfo file alone.
    pub private: Option<bool>,
    /// The filename, or the name of the root directory in which to store all the files.
    pub name: String,
    /// The files of the torrent.
    pub files: Files,
}

/// The files of a torrent: one file, or several under a root directory.
#[derive(Debug, Clone, PartialEq)]
pub enum Files {
    Multiple { files: Vec<FileInfo> },
    Single { length: BInt, md5sum: Option<BString> },
}

/// Info about a file in a torrent.
#[derive(Debug, Clone, PartialEq)]
pub struct FileInfo {
    /// Length of the file in bytes.
    pub length: BInt,
    /// An optional 32-character hexadecimal string, the MD5 sum of the file.
    pub md5sum: Option<BString>,
    /// One or more elements that together are the path and filename.
    pub path: Vec<String>,
}

impl BString {
    /// Gives up the wrapper and hands out the bytes.
    pub fn into_inner(self) -> (bytes: Vec<u8>)
        ensures
            bytes@ == self@,
    {
        self.0
    }
}

} // verus!
