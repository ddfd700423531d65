//! The metainfo schema over bencode values.
use vstd::prelude::*;
use vstd::string::*;
use vstd::utf8::encode_utf8;
use vstd::slice::slice_to_vec;
use super::encoding::{list_view, BDictionary, BList, Entry, Error};
use super::typed::FromEntry;
use super::value::{as_map, dict_insert, BValue};
use super::{BInt, BString, FileInfo, Files, Info, Metainfo};

verus! {

/// A file of a torrent as mathematics: text is its UTF-8 bytes.
pub struct FileInfoView {
    pub length: u64,
    pub md5sum: Option<Seq<u8>>,
    pub path: Seq<Seq<u8>>,
}

/// The files of a torrent as mathematics.
pub enum FilesView {
    Multiple { files: Seq<FileInfoView> },
    Single { length: u64, md5sum: Option<Seq<u8>> },
}

/// The `info` section as mathematics: text is its UTF-8 bytes.
pub struct InfoView {
    pub piece_length: u64,
    pub pieces: Seq<u8>,
    pub private: Option<bool>,
    pub name: Seq<u8>,
    pub files: FilesView,
}

/// A metadata file as mathematics: text is its UTF-8 bytes.
pub struct MetainfoView {
    pub info: InfoView,
    pub announce: Seq<u8>,
    pub announce_list: Option<Seq<Seq<Seq<u8>>>>,
    pub creation_date: Option<u64>,
    pub comment: Option<Seq<u8>>,
    pub created_by: Option<Seq<u8>>,
    pub encoding: Option<Seq<u8>>,
}

/// The UTF-8 bytes of each text of a list.
pub open spec fn text_views(texts: Seq<String>) -> Seq<Seq<u8>> {
    Seq::new(texts.len(), |i: int| encode_utf8(texts[i]@))
}

/// The UTF-8 bytes of a text that may be absent.
pub open spec fn text_view(text: Option<String>) -> Option<Seq<u8>> {
    match text {
        Some(t) => Some(encode_utf8(t@)),
        None => None,
    }
}

/// The bytes of a byte string that may be absent.
pub open spec fn bytes_view(bytes: Option<BString>) -> Option<Seq<u8>> {
    match bytes {
        Some(b) => Some(b@),
        None => None,
    }
}

impl View for FileInfo {
    type V = FileInfoView;

    open spec fn view(&self) -> FileInfoView {
        FileInfoView {
            length: self.length,
            md5sum: bytes_view(self.md5sum),
            path: text_views(self.path@),
        }
    }
}

/// The models of the files of a list.
pub open spec fn file_views(files: Seq<FileInfo>) -> Seq<FileInfoView> {
    Seq::new(files.len(), |i: int| files[i]@)
}

impl View for Files {
    type V = FilesView;

    open spec fn view(&self) -> FilesView {
        match self {
            Files::Multiple { files } => FilesView::Multiple { files: file_views(files@) },
            Files::Single { length, md5sum } => FilesView::Single {
                length: *length,
                md5sum: bytes_view(*md5sum),
            },
        }
    }
}

impl View for Info {
    type V = InfoView;

    open spec fn view(&self) -> InfoView {
        InfoView {
            piece_length: self.piece_length,
            pieces: self.pieces@,
            private: self.private,
            name: encode_utf8(self.name@),
            files: self.files@,
        }
    }
}

/// The models of the tiers of an announce list.
pub open spec fn tier_views(tiers: Seq<Vec<String>>) -> Seq<Seq<Seq<u8>>> {
    Seq::new(tiers.len(), |i: int| text_views(tiers[i]@))
}

impl View for Metainfo {
    type V = MetainfoView;

    open spec fn view(&self) -> MetainfoView {
        MetainfoView {
            info: self.info@,
            announce: encode_utf8(self.announce@),
            announce_list: match self.announce_list {
                Some(tiers) => Some(tier_views(tiers@)),
                None => None,
            },
            creation_date: self.creation_date,
            comment: text_view(self.comment),
            created_by: text_view(self.created_by),
            encoding: text_view(self.encoding),
        }
    }
}

/// The bytes of a key, as a dictionary holds them.
pub open spec fn key_bytes(name: &str) -> Seq<u8> {
    name.spec_bytes()
}

/// The value of the field `name`, if the dictionary has it.
pub open spec fn field(d: Map<Seq<u8>, BValue>, name: &str) -> Option<BValue> {
    if d.dom().contains(key_bytes(name)) {
        Some(d[key_bytes(name)])
    } else {
        None
    }
}

/// A field that must be there with the shape of `T`: its value, or
/// `MissingField` where it is absent and `InvalidFormat` where its shape is
/// another.
pub open spec fn required_field<T: FromEntry>(
    d: Map<Seq<u8>, BValue>,
    name: &'static str,
) -> Result<BValue, Error> {
    match field(d, name) {
        None => Err(Error::MissingField(name)),
        Some(v) => if T::accepts(v) {
            Ok(v)
        } else {
            Err(Error::InvalidFormat(name))
        },
    }
}

/// A field that may be there with the shape of `T`: its value, or nothing
/// where it is absent or its shape is another.
pub open spec fn optional_field<T: FromEntry>(d: Map<Seq<u8>, BValue>, name: &str) -> Option<
    BValue,
> {
    match field(d, name) {
        None => None,
        Some(v) => if T::accepts(v) {
            Some(v)
        } else {
            None
        },
    }
}

/// The bytes of an optional byte-string field.
pub open spec fn optional_bytes(d: Map<Seq<u8>, BValue>, name: &str) -> Option<Seq<u8>> {
    match optional_field::<BString>(d, name) {
        Some(v) => Some(v->ByteString_0),
        None => None,
    }
}

/// The UTF-8 bytes of an optional text field.
pub open spec fn optional_text(d: Map<Seq<u8>, BValue>, name: &str) -> Option<Seq<u8>> {
    match optional_field::<String>(d, name) {
        Some(v) => Some(v->ByteString_0),
        None => None,
    }
}

/// The number of an optional integer field.
pub open spec fn optional_int(d: Map<Seq<u8>, BValue>, name: &str) -> Option<u64> {
    match optional_field::<BInt>(d, name) {
        Some(v) => Some(v->Integer_0),
        None => None,
    }
}

/// The UTF-8 bytes of the items of a list, where every item is a text.
pub open spec fn texts_of(items: Seq<BValue>) -> Option<Seq<Seq<u8>>> {
    if forall|i: int| 0 <= i < items.len() ==> String::accepts(#[trigger] items[i]) {
        Some(Seq::new(items.len(), |i: int| items[i]->ByteString_0))
    } else {
        None
    }
}

/// A tier of an announce list: a list of texts. Any other value is no tier.
pub open spec fn tier_of(v: BValue) -> Option<Seq<Seq<u8>>> {
    match v {
        BValue::List(urls) => texts_of(urls),
        _ => None,
    }
}

/// The tiers among the items of an announce list, in their order; what is
/// no tier is passed over.
pub open spec fn tiers_of(items: Seq<BValue>) -> Seq<Seq<Seq<u8>>>
    decreases items.len(),
{
    if items.len() == 0 {
        Seq::empty()
    } else {
        match tier_of(items.last()) {
            Some(tier) => tiers_of(items.drop_last()).push(tier),
            None => tiers_of(items.drop_last()),
        }
    }
}

/// The announce list of a metainfo dictionary, if it has one that is a list.
pub open spec fn announce_list_of(d: Map<Seq<u8>, BValue>) -> Option<Seq<Seq<Seq<u8>>>> {
    match optional_field::<BList>(d, "announce-list") {
        Some(v) => Some(tiers_of(v->List_0)),
        None => None,
    }
}

/// The file that a value describes: a dictionary with a non-empty `path` of
/// texts and a `length`, and perhaps an `md5sum`.
pub open spec fn file_info_of(v: BValue) -> Result<FileInfoView, Error> {
    match v {
        BValue::Dictionary(entries) => {
            let d = as_map(entries);
            match required_field::<BList>(d, "path") {
                Err(e) => Err(e),
                Ok(p) => match texts_of(p->List_0) {
                    None => Err(Error::InvalidFormat("path")),
                    Some(path) => if path.len() == 0 {
                        Err(Error::InvalidFormat("path"))
                    } else {
                        match required_field::<BInt>(d, "length") {
                            Err(e) => Err(e),
                            Ok(l) => Ok(
                                FileInfoView {
                                    length: l->Integer_0,
                                    md5sum: optional_bytes(d, "md5sum"),
                                    path,
                                },
                            ),
                        }
                    },
                },
            }
        },
        _ => Err(Error::InvalidFormat("files")),
    }
}

/// The files that the items of a list describe, or the first failure among them.
pub open spec fn file_infos_of(items: Seq<BValue>) -> Result<Seq<FileInfoView>, Error>
    decreases items.len(),
{
    if items.len() == 0 {
        Ok(Seq::empty())
    } else {
        match file_infos_of(items.drop_last()) {
            Err(e) => Err(e),
            Ok(files) => match file_info_of(items.last()) {
                Err(e) => Err(e),
                Ok(file) => Ok(files.push(file)),
            },
        }
    }
}

/// The files of an info dictionary: those of its `files` list where it has
/// that key, else the one file of its `length`.
pub open spec fn files_of(d: Map<Seq<u8>, BValue>) -> Result<FilesView, Error> {
    if !d.dom().contains(key_bytes("files")) {
        match required_field::<BInt>(d, "length") {
            Err(e) => Err(e),
            Ok(l) => Ok(
                FilesView::Single { length: l->Integer_0, md5sum: optional_bytes(d, "md5sum") },
            ),
        }
    } else {
        match required_field::<BList>(d, "files") {
            Err(e) => Err(e),
            Ok(l) => match file_infos_of(l->List_0) {
                Err(e) => Err(e),
                Ok(files) => Ok(FilesView::Multiple { files }),
            },
        }
    }
}

/// What reading the files leaves of an info dictionary: the fields that
/// were asked for are taken out, and after a required field that fails none
/// is asked for.
pub open spec fn files_left(d: Map<Seq<u8>, BValue>) -> Map<Seq<u8>, BValue> {
    if d.dom().contains(key_bytes("files")) {
        d.remove(key_bytes("files"))
    } else if required_field::<BInt>(d, "length") is Ok {
        d.remove(key_bytes("length")).remove(key_bytes("md5sum"))
    } else {
        d.remove(key_bytes("length"))
    }
}

/// The `info` section that a value describes: a dictionary with a positive
/// `piece length`, `pieces` of whole 20-byte hashes, a `name`, perhaps
/// `private`, and its files.
pub open spec fn info_of(v: BValue) -> Result<InfoView, Error> {
    match v {
        BValue::Dictionary(entries) => {
            let d = as_map(entries);
            match required_field::<BInt>(d, "piece length") {
                Err(e) => Err(e),
                Ok(pl) => if pl->Integer_0 == 0 {
                    Err(Error::InvalidFormat("piece length"))
                } else {
                    match required_field::<BString>(d, "pieces") {
                        Err(e) => Err(e),
                        Ok(p) => if p->ByteString_0.len() % 20 != 0 {
                            Err(Error::InvalidFormat("pieces"))
                        } else {
                            match required_field::<String>(d, "name") {
                                Err(e) => Err(e),
                                Ok(n) => match files_of(d) {
                                    Err(e) => Err(e),
                                    Ok(files) => Ok(
                                        InfoView {
                                            piece_length: pl->Integer_0,
                                            pieces: p->ByteString_0,
                                            private: match optional_int(d, "private") {
                                                Some(i) => Some(i == 1),
                                                None => None,
                                            },
                                            name: n->ByteString_0,
                                            files,
                                        },
                                    ),
                                },
                            }
                        },
                    }
                },
            }
        },
        _ => Err(Error::InvalidFormat("info")),
    }
}

/// The metadata file that a value describes: a dictionary with an `info`
/// section and an `announce` text, and perhaps more.
pub open spec fn metainfo_of(v: BValue) -> Result<MetainfoView, Error> {
    match v {
        BValue::Dictionary(entries) => {
            let d = as_map(entries);
            match field(d, "info") {
                None => Err(Error::MissingField("info")),
                Some(i) => match info_of(i) {
                    Err(e) => Err(e),
                    Ok(info) => match required_field::<String>(d, "announce") {
                        Err(e) => Err(e),
                        Ok(a) => Ok(
                            MetainfoView {
                                info,
                                announce: a->ByteString_0,
                                announce_list: announce_list_of(d),
                                creation_date: optional_int(d, "creation date"),
                                comment: optional_text(d, "comment"),
                                created_by: optional_text(d, "created by"),
                                encoding: optional_text(d, "encoding"),
                            },
                        ),
                    },
                },
            }
        },
        _ => Err(Error::InvalidFormat("metainfo")),
    }
}

/// The keys of the schema are all different: each has a length and a first
/// byte that no other key of its dictionary shares.
pub proof fn lemma_schema_keys()
    ensures
        key_bytes("info").len() == 4,
        key_bytes("announce").len() == 8 && key_bytes("announce")[0] == 0x61,
        key_bytes("announce-list").len() == 13 && key_bytes("announce-list")[0] == 0x61,
        key_bytes("creation date").len() == 13 && key_bytes("creation date")[0] == 0x63,
        key_bytes("comment").len() == 7,
        key_bytes("created by").len() == 10,
        key_bytes("encoding").len() == 8 && key_bytes("encoding")[0] == 0x65,
        key_bytes("piece length").len() == 12,
        key_bytes("pieces").len() == 6 && key_bytes("pieces")[0] == 0x70,
        key_bytes("name").len() == 4 && key_bytes("name")[0] == 0x6e,
        key_bytes("private").len() == 7,
        key_bytes("files").len() == 5,
        key_bytes("length").len() == 6 && key_bytes("length")[0] == 0x6c,
        key_bytes("md5sum").len() == 6 && key_bytes("md5sum")[0] == 0x6d,
        key_bytes("path").len() == 4 && key_bytes("path")[0] == 0x70,
{
    reveal_strlit("info");
    reveal_strlit("announce");
    reveal_strlit("announce-list");
    reveal_strlit("creation date");
    reveal_strlit("comment");
    reveal_strlit("created by");
    reveal_strlit("encoding");
    reveal_strlit("piece length");
    reveal_strlit("pieces");
    reveal_strlit("name");
    reveal_strlit("private");
    reveal_strlit("files");
    reveal_strlit("length");
    reveal_strlit("md5sum");
    reveal_strlit("path");
    is_ascii_spec_bytes("info");
    is_ascii_spec_bytes("announce");
    is_ascii_spec_bytes("announce-list");
    is_ascii_spec_bytes("creation date");
    is_ascii_spec_bytes("comment");
    is_ascii_spec_bytes("created by");
    is_ascii_spec_bytes("encoding");
    is_ascii_spec_bytes("piece length");
    is_ascii_spec_bytes("pieces");
    is_ascii_spec_bytes("name");
    is_ascii_spec_bytes("private");
    is_ascii_spec_bytes("files");
    is_ascii_spec_bytes("length");
    is_ascii_spec_bytes("md5sum");
    is_ascii_spec_bytes("path");
}

/// Takes the field `key` out of `dictionary` and converts it, if it is
/// there with the shape of `T`.
pub fn parse_optional_primitive<T: FromEntry>(dictionary: &mut BDictionary, key: &str) -> (r:
    Option<T>)
    ensures
        final(dictionary).map() == old(dictionary).map().remove(key_bytes(key)),
        match optional_field::<T>(old(dictionary).map(), key) {
            Some(v) => r matches Some(t) && t.extracted() == v,
            None => r is None,
        },
{
    match dictionary.remove(key.as_bytes()) {
        Some(entry) => entry.parse::<T>(),
        None => None,
    }
}

/// Takes the field `key` out of `dictionary` and converts it. Fails with
/// `MissingField` where it is absent and with `InvalidFormat` where its
/// shape is not that of `T`.
pub fn parse_required_primitive<T: FromEntry>(dictionary: &mut BDictionary, key: &'static str) -> (r:
    Result<T, Error>)
    ensures
        final(dictionary).map() == old(dictionary).map().remove(key_bytes(key)),
        match required_field::<T>(old(dictionary).map(), key) {
            Ok(v) => r matches Ok(t) && t.extracted() == v,
            Err(e) => r == Err::<T, Error>(e),
        },
{
    match dictionary.remove(key.as_bytes()) {
        Some(entry) => entry.parse_or_err(Error::InvalidFormat(key)),
        None => Err(Error::MissingField(key)),
    }
}

/// Takes the field `key` out of `dictionary` and hands it to `parser`.
/// Fails with `MissingField` where it is absent.
pub fn parse_required<T, F: FnOnce(Entry) -> Result<T, Error>>(
    dictionary: &mut BDictionary,
    key: &'static str,
    parser: F,
) -> (r: Result<T, Error>)
    requires
        forall|entry: Entry| call_requires(parser, (entry,)),
    ensures
        final(dictionary).map() == old(dictionary).map().remove(key_bytes(key)),
        match field(old(dictionary).map(), key) {
            None => r == Err::<T, Error>(Error::MissingField(key)),
            Some(v) => exists|entry: Entry| entry@ == v && call_ensures(parser, (entry,), r),
        },
{
    match dictionary.remove(key.as_bytes()) {
        Some(entry) => parser(entry),
        None => Err(Error::MissingField(key)),
    }
}

/// Converts every item of a list to text, or fails where one is none.
pub fn texts(list: BList) -> (r: Option<Vec<String>>)
    ensures
        match texts_of(list_view(list@)) {
            Some(t) => r matches Some(v) && text_views(v@) == t,
            None => r is None,
        },
{
    let ghost items = list_view(list@);
    let mut out: Vec<String> = Vec::new();
    for entry in iter: list
        invariant
            items == list_view(iter.seq()),
            out@.len() == iter.index(),
            forall|j: int| 0 <= j < iter.index() ==> String::accepts(#[trigger] items[j]),
            forall|j: int|
                0 <= j < iter.index() ==> encode_utf8((#[trigger] out@[j])@) == items[j]->ByteString_0,
    {
        assert(entry@ == items[iter.index() as int]);
        match entry.parse::<String>() {
            Some(text) => {
                out.push(text);
            },
            None => {
                return None;
            },
        }
    }
    assert(text_views(out@) =~= texts_of(items)->Some_0);
    Some(out)
}

/// A failure among the first items of a list is the failure of the whole list.
pub proof fn lemma_file_infos_failure(items: Seq<BValue>, n: int, e: Error)
    requires
        0 <= n <= items.len(),
        file_infos_of(items.take(n)) == Err::<Seq<FileInfoView>, Error>(e),
    ensures
        file_infos_of(items) == Err::<Seq<FileInfoView>, Error>(e),
    decreases items.len() - n,
{
    if n < items.len() {
        assert(items.drop_last().take(n) =~= items.take(n));
        lemma_file_infos_failure(items.drop_last(), n, e);
    } else {
        assert(items.take(n) =~= items);
    }
}

impl FileInfo {
    /// Reads the description of one file of a torrent.
    pub fn parse(entry: Entry) -> (r: Result<Self, Error>)
        ensures
            match file_info_of(entry@) {
                Ok(f) => r matches Ok(x) && x@ == f,
                Err(e) => r == Err::<FileInfo, Error>(e),
            },
    {
        let mut info: BDictionary = match entry.parse_or_err(Error::InvalidFormat("files")) {
            Ok(d) => d,
            Err(e) => {
                return Err(e);
            },
        };
        proof {
            lemma_schema_keys();
        }
        let list: BList = match parse_required_primitive(&mut info, "path") {
            Ok(l) => l,
            Err(e) => {
                return Err(e);
            },
        };
        let path = match texts(list) {
            Some(p) => p,
            None => {
                return Err(Error::InvalidFormat("path"));
            },
        };
        if path.len() == 0 {
            return Err(Error::InvalidFormat("path"));
        }
        let length: BInt = match parse_required_primitive(&mut info, "length") {
            Ok(l) => l,
            Err(e) => {
                return Err(e);
            },
        };
        let md5sum: Option<BString> = parse_optional_primitive(&mut info, "md5sum");
        Ok(FileInfo { length, md5sum, path })
    }
}

impl Info {
    /// Reads the `info` section of a metadata file.
    pub fn parse(entry: Entry) -> (r: Result<Self, Error>)
        ensures
            match info_of(entry@) {
                Ok(i) => r matches Ok(x) && x@ == i,
                Err(e) => r == Err::<Info, Error>(e),
            },
    {
        let mut info: BDictionary = match entry.parse_or_err(Error::InvalidFormat("info")) {
            Ok(d) => d,
            Err(e) => {
                return Err(e);
            },
        };
        proof {
            lemma_schema_keys();
        }
        let piece_length: BInt = match parse_required_primitive(&mut info, "piece length") {
            Ok(l) => l,
            Err(e) => {
                return Err(e);
            },
        };
        if piece_length == 0 {
            return Err(Error::InvalidFormat("piece length"));
        }
        let pieces: BString = match parse_required_primitive(&mut info, "pieces") {
            Ok(p) => p,
            Err(e) => {
                return Err(e);
            },
        };
        if pieces.0.len() % 20 != 0 {
            return Err(Error::InvalidFormat("pieces"));
        }
        let name: String = match parse_required_primitive(&mut info, "name") {
            Ok(n) => n,
            Err(e) => {
                return Err(e);
            },
        };
        let private = match parse_optional_primitive::<BInt>(&mut info, "private") {
            Some(i) => Some(i == 1),
            None => None,
        };
        let files = match Self::parse_file_info(&mut info) {
            Ok(f) => f,
            Err(e) => {
                return Err(e);
            },
        };
        Ok(Info { piece_length, pieces, private, name, files })
    }

    /// Reads the files of an `info` section: those of its `files` list
    /// where it has that key, else the one file of its `length`.
    pub fn parse_file_info(info: &mut BDictionary) -> (r: Result<Files, Error>)
        ensures
            match files_of(old(info).map()) {
                Ok(f) => r matches Ok(x) && x@ == f,
                Err(e) => r == Err::<Files, Error>(e),
            },
            final(info).map() == files_left(old(info).map()),
    {
        proof {
            lemma_schema_keys();
        }
        if !info.contains_key("files".as_bytes()) {
            let length: BInt = match parse_required_primitive(info, "length") {
                Ok(l) => l,
                Err(e) => {
                    return Err(e);
                },
            };
            let md5sum: Option<BString> = parse_optional_primitive(info, "md5sum");
            Ok(Files::Single { length, md5sum })
        } else {
            let entries: BList = match parse_required_primitive(info, "files") {
                Ok(l) => l,
                Err(e) => {
                    return Err(e);
                },
            };
            let ghost items = list_view(entries@);
            let mut files: Vec<FileInfo> = Vec::new();
            assert(items.take(0) =~= Seq::<BValue>::empty());
            assert(file_views(files@) =~= Seq::<FileInfoView>::empty());
            for entry in iter: entries
                invariant
                    info.map() == files_left(old(info).map()),
                    old(info).map().dom().contains(key_bytes("files")),
                    required_field::<BList>(old(info).map(), "files") == Ok::<BValue, Error>(
                        BValue::List(items),
                    ),
                    items == list_view(iter.seq()),
                    files@.len() == iter.index(),
                    file_infos_of(items.take(iter.index() as int)) == Ok::<
                        Seq<FileInfoView>,
                        Error,
                    >(file_views(files@)),
            {
                let ghost n = iter.index() as int;
                assert(entry@ == items[n]);
                assert(items.take(n + 1).drop_last() =~= items.take(n));
                match FileInfo::parse(entry) {
                    Ok(file) => {
                        assert(file_views(files@.push(file)) =~= file_views(files@).push(file@));
                        files.push(file);
                    },
                    Err(e) => {
                        proof {
                            lemma_file_infos_failure(items, n + 1, e);
                        }
                        return Err(e);
                    },
                }
            }
            assert(items.take(items.len() as int) =~= items);
            Ok(Files::Multiple { files })
        }
    }
}

impl Metainfo {
    /// Reads a metadata file from its bencode value.
    pub fn parse(entry: Entry) -> (r: Result<Self, Error>)
        ensures
            match metainfo_of(entry@) {
                Ok(m) => r matches Ok(x) && x@ == m,
                Err(e) => r == Err::<Metainfo, Error>(e),
            },
    {
        let mut metainfo: BDictionary = match entry.parse_or_err(
            Error::InvalidFormat("metainfo"),
        ) {
            Ok(d) => d,
            Err(e) => {
                return Err(e);
            },
        };
        proof {
            lemma_schema_keys();
        }
        let info = match parse_required(&mut metainfo, "info", Info::parse) {
            Ok(i) => i,
            Err(e) => {
                return Err(e);
            },
        };
        let announce: String = match parse_required_primitive(&mut metainfo, "announce") {
            Ok(a) => a,
            Err(e) => {
                return Err(e);
            },
        };
        let announce_list = Self::parse_announce_list(
            parse_optional_primitive(&mut metainfo, "announce-list"),
        );
        let creation_date: Option<BInt> = parse_optional_primitive(&mut metainfo, "creation date");
        let comment: Option<String> = parse_optional_primitive(&mut metainfo, "comment");
        let created_by: Option<String> = parse_optional_primitive(&mut metainfo, "created by");
        let encoding: Option<String> = parse_optional_primitive(&mut metainfo, "encoding");
        Ok(Metainfo { info, announce, announce_list, creation_date, comment, created_by, encoding })
    }

    /// Reads the tiers of an announce list. What is no list of texts is
    /// passed over.
    pub fn parse_announce_list(blist: Option<BList>) -> (r: Option<Vec<Vec<String>>>)
        ensures
            match blist {
                Some(list) => r matches Some(tiers) && tier_views(tiers@) == tiers_of(
                    list_view(list@),
                ),
                None => r is None,
            },
    {
        let list = match blist {
            Some(list) => list,
            None => {
                return None;
            },
        };
        let ghost items = list_view(list@);
        let mut tiers: Vec<Vec<String>> = Vec::new();
        assert(items.take(0) =~= Seq::<BValue>::empty());
        assert(tier_views(tiers@) =~= Seq::<Seq<Seq<u8>>>::empty());
        for entry in iter: list
            invariant
                items == list_view(iter.seq()),
                tier_views(tiers@) == tiers_of(items.take(iter.index() as int)),
        {
            let ghost n = iter.index() as int;
            assert(entry@ == items[n]);
            assert(items.take(n + 1).drop_last() =~= items.take(n));
            match entry.parse::<BList>() {
                Some(urls) => match texts(urls) {
                    Some(tier) => {
                        assert(tier_views(tiers@.push(tier)) =~= tier_views(tiers@).push(
                            text_views(tier@),
                        ));
                        tiers.push(tier);
                    },
                    None => {},
                },
                None => {},
            }
        }
        assert(items.take(items.len() as int) =~= items);
        Some(tiers)
    }
}

/// The entries `d` with the field `name` bound to `v`.
pub open spec fn put(d: Seq<(Seq<u8>, BValue)>, name: &str, v: BValue) -> Seq<(Seq<u8>, BValue)> {
    dict_insert(d, key_bytes(name), v)
}

/// The entries `d` with the field `name` bound to `v`, where there is one.
pub open spec fn put_optional(d: Seq<(Seq<u8>, BValue)>, name: &str, v: Option<BValue>) -> Seq<
    (Seq<u8>, BValue),
> {
    match v {
        Some(x) => put(d, name, x),
        None => d,
    }
}

/// A byte string that may be absent, as a value.
pub open spec fn optional_bytes_value(bytes: Option<Seq<u8>>) -> Option<BValue> {
    match bytes {
        Some(b) => Some(BValue::ByteString(b)),
        None => None,
    }
}

/// An integer that may be absent, as a value.
pub open spec fn optional_int_value(n: Option<u64>) -> Option<BValue> {
    match n {
        Some(i) => Some(BValue::Integer(i)),
        None => None,
    }
}

/// Texts as a list of byte strings.
pub open spec fn texts_value(texts: Seq<Seq<u8>>) -> BValue {
    BValue::List(Seq::new(texts.len(), |i: int| BValue::ByteString(texts[i])))
}

/// The tiers of an announce list as a list of lists.
pub open spec fn tiers_value(tiers: Seq<Seq<Seq<u8>>>) -> BValue {
    BValue::List(Seq::new(tiers.len(), |i: int| texts_value(tiers[i])))
}

/// The dictionary that describes a file.
pub open spec fn file_info_value(f: FileInfoView) -> BValue {
    BValue::Dictionary(
        put_optional(
            put(put(Seq::empty(), "length", BValue::Integer(f.length)), "path", texts_value(f.path)),
            "md5sum",
            optional_bytes_value(f.md5sum),
        ),
    )
}

/// The dictionaries that describe the files of a list.
pub open spec fn file_infos_value(files: Seq<FileInfoView>) -> BValue {
    BValue::List(Seq::new(files.len(), |i: int| file_info_value(files[i])))
}

/// The entries of an `info` dictionary with the files bound: `files` for
/// several, `length` and perhaps `md5sum` for one.
pub open spec fn put_files(d: Seq<(Seq<u8>, BValue)>, files: FilesView) -> Seq<(Seq<u8>, BValue)> {
    match files {
        FilesView::Multiple { files } => put(d, "files", file_infos_value(files)),
        FilesView::Single { length, md5sum } => put_optional(
            put(d, "length", BValue::Integer(length)),
            "md5sum",
            optional_bytes_value(md5sum),
        ),
    }
}

/// The dictionary that describes an `info` section. `private` is written
/// as the integer 1 or 0.
pub open spec fn info_value(i: InfoView) -> BValue {
    BValue::Dictionary(
        put_files(
            put_optional(
                put(
                    put(
                        put(Seq::empty(), "piece length", BValue::Integer(i.piece_length)),
                        "pieces",
                        BValue::ByteString(i.pieces),
                    ),
                    "name",
                    BValue::ByteString(i.name),
                ),
                "private",
                match i.private {
                    Some(p) => Some(
                        BValue::Integer(
                            if p {
                                1
                            } else {
                                0
                            },
                        ),
                    ),
                    None => None,
                },
            ),
            i.files,
        ),
    )
}

/// The dictionary that describes a metadata file.
pub open spec fn metainfo_value(m: MetainfoView) -> BValue {
    BValue::Dictionary(
        put_optional(
            put_optional(
                put_optional(
                    put_optional(
                        put_optional(
                            put(
                                put(Seq::empty(), "info", info_value(m.info)),
                                "announce",
                                BValue::ByteString(m.announce),
                            ),
                            "announce-list",
                            match m.announce_list {
                                Some(tiers) => Some(tiers_value(tiers)),
                                None => None,
                            },
                        ),
                        "creation date",
                        optional_int_value(m.creation_date),
                    ),
                    "comment",
                    optional_bytes_value(m.comment),
                ),
                "created by",
                optional_bytes_value(m.created_by),
            ),
            "encoding",
            optional_bytes_value(m.encoding),
        ),
    )
}

/// A key as the byte string that a dictionary holds.
pub fn key(name: &str) -> (k: BString)
    ensures
        k@ == key_bytes(name),
{
    BString(slice_to_vec(name.as_bytes()))
}

/// A text as a byte-string value.
pub fn text_entry(text: &String) -> (e: Entry)
    ensures
        e@ == BValue::ByteString(encode_utf8(text@)),
{
    Entry::String(BString(slice_to_vec(text.as_str().as_bytes())))
}

/// A byte string as a value of its own.
pub fn bytes_entry(bytes: &BString) -> (e: Entry)
    ensures
        e@ == BValue::ByteString(bytes@),
{
    Entry::String(BString(slice_to_vec(bytes.0.as_slice())))
}

/// Texts as a list value.
pub fn texts_entry(texts: &Vec<String>) -> (e: Entry)
    ensures
        e@ == texts_value(text_views(texts@)),
{
    let mut list: BList = Vec::new();
    let mut i: usize = 0;
    while i < texts.len()
        invariant
            i <= texts.len(),
            list@.len() == i,
            forall|j: int|
                0 <= j < i ==> (#[trigger] list@[j])@ == BValue::ByteString(encode_utf8(texts@[j]@)),
        decreases texts.len() - i,
    {
        list.push(text_entry(&texts[i]));
        i += 1;
    }
    assert(list_view(list@) =~= texts_value(text_views(texts@))->List_0);
    Entry::List(list)
}

/// Binds the field `name` in `dictionary`, where there is a value.
pub fn insert_optional(dictionary: &mut BDictionary, name: &str, value: Option<Entry>)
    ensures
        final(dictionary)@ == put_optional(
            old(dictionary)@,
            name,
            match value {
                Some(e) => Some(e@),
                None => None,
            },
        ),
{
    match value {
        Some(e) => {
            dictionary.insert(key(name), e);
        },
        None => {},
    }
}

/// A byte string that may be absent, as a value that may be absent.
pub fn optional_bytes_entry(bytes: &Option<BString>) -> (e: Option<Entry>)
    ensures
        match e {
            Some(x) => Some(x@),
            None => None,
        } == optional_bytes_value(bytes_view(*bytes)),
{
    match bytes {
        Some(b) => Some(bytes_entry(b)),
        None => None,
    }
}

/// A text that may be absent, as a value that may be absent.
pub fn optional_text_entry(text: &Option<String>) -> (e: Option<Entry>)
    ensures
        match e {
            Some(x) => Some(x@),
            None => None,
        } == optional_bytes_value(text_view(*text)),
{
    match text {
        Some(t) => Some(text_entry(t)),
        None => None,
    }
}

impl FileInfo {
    /// The bencode value that describes the file.
    pub fn to_entry(&self) -> (e: Entry)
        ensures
            e@ == file_info_value(self@),
    {
        let mut d = BDictionary::new();
        d.insert(key("length"), Entry::Integer(self.length));
        d.insert(key("path"), texts_entry(&self.path));
        insert_optional(&mut d, "md5sum", optional_bytes_entry(&self.md5sum));
        Entry::Dictionary(d)
    }
}

impl Info {
    /// The bencode value that describes the section.
    pub fn to_entry(&self) -> (e: Entry)
        ensures
            e@ == info_value(self@),
    {
        let mut d = BDictionary::new();
        d.insert(key("piece length"), Entry::Integer(self.piece_length));
        d.insert(key("pieces"), bytes_entry(&self.pieces));
        d.insert(key("name"), text_entry(&self.name));
        let private = match self.private {
            Some(p) => Some(Entry::Integer(if p { 1 } else { 0 })),
            None => None,
        };
        insert_optional(&mut d, "private", private);
        match &self.files {
            Files::Multiple { files } => {
                let mut list: BList = Vec::new();
                let mut i: usize = 0;
                while i < files.len()
                    invariant
                        i <= files.len(),
                        list@.len() == i,
                        forall|j: int|
                            0 <= j < i ==> (#[trigger] list@[j])@ == file_info_value(files@[j]@),
                    decreases files.len() - i,
                {
                    list.push(files[i].to_entry());
                    i += 1;
                }
                assert(list_view(list@) =~= file_infos_value(file_views(files@))->List_0);
                d.insert(key("files"), Entry::List(list));
            },
            Files::Single { length, md5sum } => {
                d.insert(key("length"), Entry::Integer(*length));
                insert_optional(&mut d, "md5sum", optional_bytes_entry(md5sum));
            },
        }
        Entry::Dictionary(d)
    }
}

impl Metainfo {
    /// The bencode value that describes the metadata file.
    pub fn to_entry(&self) -> (e: Entry)
        ensures
            e@ == metainfo_value(self@),
    {
        let mut d = BDictionary::new();
        d.insert(key("info"), self.info.to_entry());
        d.insert(key("announce"), text_entry(&self.announce));
        let announce_list = match &self.announce_list {
            Some(tiers) => {
                let mut list: BList = Vec::new();
                let mut i: usize = 0;
                while i < tiers.len()
                    invariant
                        i <= tiers.len(),
                        list@.len() == i,
                        forall|j: int|
                            0 <= j < i ==> (#[trigger] list@[j])@ == texts_value(
                                text_views(tiers@[j]@),
                            ),
                    decreases tiers.len() - i,
                {
                    list.push(texts_entry(&tiers[i]));
                    i += 1;
                }
                assert(list_view(list@) =~= tiers_value(tier_views(tiers@))->List_0);
                Some(Entry::List(list))
            },
            None => None,
        };
        insert_optional(&mut d, "announce-list", announce_list);
        let creation_date = match self.creation_date {
            Some(secs) => Some(Entry::Integer(secs)),
            None => None,
        };
        insert_optional(&mut d, "creation date", creation_date);
        insert_optional(&mut d, "comment", optional_text_entry(&self.comment));
        insert_optional(&mut d, "created by", optional_text_entry(&self.created_by));
        insert_optional(&mut d, "encoding", optional_text_entry(&self.encoding));
        Entry::Dictionary(d)
    }
}

} // verus!
