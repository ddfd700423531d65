//! What holds between reading a metadata file from a value and writing it
//! as one.
use vstd::prelude::*;
use vstd::utf8::valid_utf8;
use super::encoding::{BList, Error};
use super::metainfo::{
    announce_list_of, field, file_info_of, file_info_value, file_infos_of, file_infos_value,
    files_of, info_of, info_value, key_bytes, lemma_schema_keys, metainfo_of, metainfo_value,
    optional_bytes, optional_bytes_value, optional_field, optional_int, optional_int_value,
    optional_text, put, put_files, put_optional, required_field, texts_of, texts_value, tier_of,
    tiers_of, tiers_value, FileInfoView, FilesView, InfoView, MetainfoView,
};
use super::typed::FromEntry;
use super::value::{as_map, keys_sorted, lemma_dict_insert, BValue};

verus! {

/// Every text of a list is valid UTF-8.
pub open spec fn all_texts(texts: Seq<Seq<u8>>) -> bool {
    forall|i: int| 0 <= i < texts.len() ==> valid_utf8(#[trigger] texts[i])
}

/// A text that may be absent is valid UTF-8 where it is there.
pub open spec fn optional_is_text(text: Option<Seq<u8>>) -> bool {
    text matches Some(t) ==> valid_utf8(t)
}

/// A file is well formed when its path is a non-empty list of texts.
pub open spec fn file_info_wf(f: FileInfoView) -> bool {
    f.path.len() > 0 && all_texts(f.path)
}

/// Files are well formed when each of them is.
pub open spec fn files_wf(files: FilesView) -> bool {
    match files {
        FilesView::Multiple { files } => forall|i: int|
            0 <= i < files.len() ==> file_info_wf(#[trigger] files[i]),
        FilesView::Single { .. } => true,
    }
}

/// An `info` section is well formed when its piece length is positive, its
/// pieces are whole 20-byte hashes, its name is a text and its files are
/// well formed.
pub open spec fn info_wf(i: InfoView) -> bool {
    &&& i.piece_length > 0
    &&& i.pieces.len() % 20 == 0
    &&& valid_utf8(i.name)
    &&& files_wf(i.files)
}

/// A metadata file is well formed when its `info` section is and all its
/// texts are valid UTF-8.
pub open spec fn metainfo_wf(m: MetainfoView) -> bool {
    &&& info_wf(m.info)
    &&& valid_utf8(m.announce)
    &&& (m.announce_list matches Some(tiers) ==> forall|i: int|
        0 <= i < tiers.len() ==> all_texts(#[trigger] tiers[i]))
    &&& optional_is_text(m.comment)
    &&& optional_is_text(m.created_by)
    &&& optional_is_text(m.encoding)
}

/// No entries stand for the empty mapping.
pub proof fn lemma_as_map_empty()
    ensures
        as_map(Seq::empty()) == Map::<Seq<u8>, BValue>::empty(),
        keys_sorted(Seq::empty()),
{
    assert(as_map(Seq::empty()) =~= Map::<Seq<u8>, BValue>::empty());
}

/// Binding a field keeps the order and changes the mapping at its key only.
pub proof fn lemma_put(d: Seq<(Seq<u8>, BValue)>, name: &str, v: BValue)
    requires
        keys_sorted(d),
    ensures
        keys_sorted(put(d, name, v)),
        as_map(put(d, name, v)) == as_map(d).insert(key_bytes(name), v),
{
    lemma_dict_insert(d, key_bytes(name), v);
}

/// Binding a field that may be absent keeps the order, and changes the
/// mapping at its key where there is a value.
pub proof fn lemma_put_optional(d: Seq<(Seq<u8>, BValue)>, name: &str, v: Option<BValue>)
    requires
        keys_sorted(d),
    ensures
        keys_sorted(put_optional(d, name, v)),
        as_map(put_optional(d, name, v)) == match v {
            Some(x) => as_map(d).insert(key_bytes(name), x),
            None => as_map(d),
        },
{
    if let Some(x) = v {
        lemma_put(d, name, x);
    }
}

/// Texts written as a list are read back as they were.
pub proof fn lemma_texts_round_trip(texts: Seq<Seq<u8>>)
    requires
        all_texts(texts),
    ensures
        texts_of(texts_value(texts)->List_0) == Some(texts),
        tier_of(texts_value(texts)) == Some(texts),
{
    let items = texts_value(texts)->List_0;
    assert forall|i: int| 0 <= i < items.len() implies String::accepts(#[trigger] items[i]) by {
        assert(valid_utf8(texts[i]));
    }
    assert(Seq::new(items.len(), |i: int| items[i]->ByteString_0) =~= texts);
}

/// The texts that are read from a list are valid UTF-8.
pub proof fn lemma_texts_of_are_texts(items: Seq<BValue>)
    ensures
        texts_of(items) matches Some(texts) ==> all_texts(texts),
{
    if let Some(texts) = texts_of(items) {
        assert forall|i: int| 0 <= i < texts.len() implies valid_utf8(#[trigger] texts[i]) by {
            assert(String::accepts(items[i]));
        }
    }
}

/// Tiers written as a list of lists are read back as they were.
pub proof fn lemma_tiers_round_trip(tiers: Seq<Seq<Seq<u8>>>)
    requires
        forall|i: int| 0 <= i < tiers.len() ==> all_texts(#[trigger] tiers[i]),
    ensures
        tiers_of(tiers_value(tiers)->List_0) == tiers,
    decreases tiers.len(),
{
    let items = tiers_value(tiers)->List_0;
    if tiers.len() == 0 {
        assert(tiers =~= Seq::empty());
    } else {
        let head = tiers.drop_last();
        assert forall|i: int| 0 <= i < head.len() implies all_texts(#[trigger] head[i]) by {
            assert(head[i] == tiers[i]);
        }
        lemma_tiers_round_trip(head);
        assert(items.drop_last() =~= tiers_value(head)->List_0);
        assert(items.last() == texts_value(tiers.last()));
        assert(all_texts(tiers[tiers.len() - 1]));
        lemma_texts_round_trip(tiers.last());
        assert(head.push(tiers.last()) =~= tiers);
    }
}

/// The tiers that are read from a list are lists of texts.
pub proof fn lemma_tiers_of_are_texts(items: Seq<BValue>)
    ensures
        forall|i: int| 0 <= i < tiers_of(items).len() ==> all_texts(#[trigger] tiers_of(items)[i]),
    decreases items.len(),
{
    if items.len() > 0 {
        let head = tiers_of(items.drop_last());
        lemma_tiers_of_are_texts(items.drop_last());
        if let BValue::List(urls) = items.last() {
            lemma_texts_of_are_texts(urls);
        }
        assert forall|i: int| 0 <= i < tiers_of(items).len() implies all_texts(
            #[trigger] tiers_of(items)[i],
        ) by {
            if i < head.len() {
                assert(tiers_of(items)[i] == head[i]);
            }
        }
    }
}

/// A file written as a dictionary is read back as it was.
pub proof fn lemma_file_info_round_trip(f: FileInfoView)
    requires
        file_info_wf(f),
    ensures
        file_info_of(file_info_value(f)) == Ok::<FileInfoView, Error>(f),
{
    lemma_schema_keys();
    lemma_as_map_empty();
    let d1 = put(Seq::empty(), "length", BValue::Integer(f.length));
    lemma_put(Seq::empty(), "length", BValue::Integer(f.length));
    let d2 = put(d1, "path", texts_value(f.path));
    lemma_put(d1, "path", texts_value(f.path));
    let d3 = put_optional(d2, "md5sum", optional_bytes_value(f.md5sum));
    lemma_put_optional(d2, "md5sum", optional_bytes_value(f.md5sum));
    let m = as_map(d3);
    lemma_texts_round_trip(f.path);
    assert(field(m, "path") == Some(texts_value(f.path)));
    assert(field(m, "length") == Some(BValue::Integer(f.length)));
    assert(optional_bytes(m, "md5sum") == f.md5sum);
}

/// The file that is read from a value is well formed.
pub proof fn lemma_file_info_of_wf(v: BValue)
    ensures
        file_info_of(v) matches Ok(f) ==> file_info_wf(f),
{
    if let BValue::Dictionary(entries) = v {
        if let Ok(p) = required_field::<BList>(as_map(entries), "path") {
            lemma_texts_of_are_texts(p->List_0);
        }
    }
}

/// Files written as a list of dictionaries are read back as they were.
pub proof fn lemma_file_infos_round_trip(files: Seq<FileInfoView>)
    requires
        forall|i: int| 0 <= i < files.len() ==> file_info_wf(#[trigger] files[i]),
    ensures
        file_infos_of(file_infos_value(files)->List_0) == Ok::<Seq<FileInfoView>, Error>(files),
    decreases files.len(),
{
    let items = file_infos_value(files)->List_0;
    if files.len() == 0 {
        assert(files =~= Seq::empty());
    } else {
        let head = files.drop_last();
        assert forall|i: int| 0 <= i < head.len() implies file_info_wf(#[trigger] head[i]) by {
            assert(head[i] == files[i]);
        }
        lemma_file_infos_round_trip(head);
        assert(items.drop_last() =~= file_infos_value(head)->List_0);
        assert(items.last() == file_info_value(files.last()));
        assert(file_info_wf(files[files.len() - 1]));
        lemma_file_info_round_trip(files.last());
        assert(head.push(files.last()) =~= files);
    }
}

/// The files that are read from a list are well formed.
pub proof fn lemma_file_infos_of_wf(items: Seq<BValue>)
    ensures
        file_infos_of(items) matches Ok(files) ==> forall|i: int|
            0 <= i < files.len() ==> file_info_wf(#[trigger] files[i]),
    decreases items.len(),
{
    if items.len() > 0 {
        lemma_file_infos_of_wf(items.drop_last());
        lemma_file_info_of_wf(items.last());
    }
}

/// An `info` section written as a dictionary is read back as it was.
pub proof fn lemma_info_round_trip(i: InfoView)
    requires
        info_wf(i),
    ensures
        info_of(info_value(i)) == Ok::<InfoView, Error>(i),
{
    lemma_schema_keys();
    lemma_as_map_empty();
    let private = match i.private {
        Some(p) => Some(
            BValue::Integer(
                if p {
                    1
                } else {
                    0
                },
            ),
        ),
        None => None,
    };
    let d1 = put(Seq::empty(), "piece length", BValue::Integer(i.piece_length));
    lemma_put(Seq::empty(), "piece length", BValue::Integer(i.piece_length));
    let d2 = put(d1, "pieces", BValue::ByteString(i.pieces));
    lemma_put(d1, "pieces", BValue::ByteString(i.pieces));
    let d3 = put(d2, "name", BValue::ByteString(i.name));
    lemma_put(d2, "name", BValue::ByteString(i.name));
    let d4 = put_optional(d3, "private", private);
    lemma_put_optional(d3, "private", private);
    let d5 = put_files(d4, i.files);
    let m = as_map(d5);
    match i.files {
        FilesView::Multiple { files } => {
            lemma_put(d4, "files", file_infos_value(files));
            lemma_file_infos_round_trip(files);
            assert(field(m, "files") == Some(file_infos_value(files)));
            assert(files_of(m) == Ok::<FilesView, Error>(i.files));
        },
        FilesView::Single { length, md5sum } => {
            let d = put(d4, "length", BValue::Integer(length));
            lemma_put(d4, "length", BValue::Integer(length));
            lemma_put_optional(d, "md5sum", optional_bytes_value(md5sum));
            assert(!m.dom().contains(key_bytes("files")));
            assert(field(m, "length") == Some(BValue::Integer(length)));
            assert(optional_bytes(m, "md5sum") == md5sum);
            assert(files_of(m) == Ok::<FilesView, Error>(i.files));
        },
    }
    assert(field(m, "piece length") == Some(BValue::Integer(i.piece_length)));
    assert(field(m, "pieces") == Some(BValue::ByteString(i.pieces)));
    assert(field(m, "name") == Some(BValue::ByteString(i.name)));
    assert(field(m, "private") == private);
    assert(optional_int(m, "private") == match i.private {
        Some(p) => Some(
            if p {
                1u64
            } else {
                0u64
            },
        ),
        None => None,
    });
}

/// The `info` section that is read from a value is well formed.
pub proof fn lemma_info_of_wf(v: BValue)
    ensures
        info_of(v) matches Ok(i) ==> info_wf(i),
{
    if let BValue::Dictionary(entries) = v {
        let d = as_map(entries);
        if let Ok(l) = required_field::<BList>(d, "files") {
            lemma_file_infos_of_wf(l->List_0);
        }
    }
}

/// A metadata file written as a dictionary is read back as it was.
pub proof fn lemma_metainfo_round_trip(m: MetainfoView)
    requires
        metainfo_wf(m),
    ensures
        metainfo_of(metainfo_value(m)) == Ok::<MetainfoView, Error>(m),
{
    lemma_schema_keys();
    lemma_as_map_empty();
    lemma_info_round_trip(m.info);
    let tiers = match m.announce_list {
        Some(tiers) => Some(tiers_value(tiers)),
        None => None,
    };
    let d1 = put(Seq::empty(), "info", info_value(m.info));
    lemma_put(Seq::empty(), "info", info_value(m.info));
    let d2 = put(d1, "announce", BValue::ByteString(m.announce));
    lemma_put(d1, "announce", BValue::ByteString(m.announce));
    let d3 = put_optional(d2, "announce-list", tiers);
    lemma_put_optional(d2, "announce-list", tiers);
    let d4 = put_optional(d3, "creation date", optional_int_value(m.creation_date));
    lemma_put_optional(d3, "creation date", optional_int_value(m.creation_date));
    let d5 = put_optional(d4, "comment", optional_bytes_value(m.comment));
    lemma_put_optional(d4, "comment", optional_bytes_value(m.comment));
    let d6 = put_optional(d5, "created by", optional_bytes_value(m.created_by));
    lemma_put_optional(d5, "created by", optional_bytes_value(m.created_by));
    let d7 = put_optional(d6, "encoding", optional_bytes_value(m.encoding));
    lemma_put_optional(d6, "encoding", optional_bytes_value(m.encoding));
    let map = as_map(d7);
    assert(field(map, "info") == Some(info_value(m.info)));
    assert(field(map, "announce") == Some(BValue::ByteString(m.announce)));
    assert(field(map, "announce-list") == tiers);
    assert(field(map, "creation date") == optional_int_value(m.creation_date));
    assert(field(map, "comment") == optional_bytes_value(m.comment));
    assert(field(map, "created by") == optional_bytes_value(m.created_by));
    assert(field(map, "encoding") == optional_bytes_value(m.encoding));
    if let Some(t) = m.announce_list {
        lemma_tiers_round_trip(t);
    }
    assert(announce_list_of(map) == m.announce_list);
    assert(optional_int(map, "creation date") == m.creation_date);
    assert(optional_text(map, "comment") == m.comment);
    assert(optional_text(map, "created by") == m.created_by);
    assert(optional_text(map, "encoding") == m.encoding);
}

/// The metadata file that is read from a value is well formed.
pub proof fn lemma_metainfo_of_wf(v: BValue)
    ensures
        metainfo_of(v) matches Ok(m) ==> metainfo_wf(m),
{
    if let BValue::Dictionary(entries) = v {
        let d = as_map(entries);
        if let Some(i) = field(d, "info") {
            lemma_info_of_wf(i);
        }
        if let Some(l) = optional_field::<BList>(d, "announce-list") {
            lemma_tiers_of_are_texts(l->List_0);
        }
    }
}

} // verus!
