//! What goes to disk and what comes back from it: the write-ahead log of a
//! shard, one JSON line `[key, value]` per write, and the snapshot of a
//! shard, the LZ4 frame of the JSON object of all its records.
//!
//! Nothing here touches a file. Writing yields a [`FileWrite`] for the
//! caller to carry out; reading takes what the caller found in the file.

use crate::json::{
    array_value, as_str, clone_value, elements, json_entries, json_of, json_parse, json_text,
    jsons, members, members_of, object_value, parse, string_value, to_text, Json,
};
use crate::shard::{shard_entries, shard_list};
use crate::strmap::distinct_keys;
use crate::text::{decimal_text, pieces, push_decimal, push_text, split_on, views};
use dashmap::DashMap;
use lz4::{Decoder, EncoderBuilder};
use serde_json::Value;
use std::io::{Read, Write};
use vstd::prelude::*;
use vstd::string::StringSliceAdditionalSpecFns;
use vstd::utf8::{decode_utf8, encode_utf8, valid_utf8};

verus! {

#[verifier::external_type_specification]
#[verifier::external_body]
pub struct ExIoError(std::io::Error);

/// The LZ4 frame that the encoder makes of `data` at `level`; `None`
/// where the encoder refuses.
pub uninterp spec fn lz4_frame(data: Seq<u8>, level: u32) -> Option<Seq<u8>>;

/// What the decoder reads from an LZ4 frame; `None` where the bytes are
/// none that it reads to the end.
pub uninterp spec fn lz4_content(frame: Seq<u8>) -> Option<Seq<u8>>;

/// An `lz4::Encoder` over a `Vec`, built at `level`, given `data` in one
/// `write_all` and finished. The encoder writes to memory only: whether
/// it yields a frame, and which, depends on `data` and `level` alone. LZ4
/// is lossless: from a frame that the encoder made, the decoder reads
/// `data` again.
#[verifier::external_body]
pub(crate) fn compress(data: &[u8], level: u32) -> (r: Result<Vec<u8>, std::io::Error>)
    ensures
        match r {
            Ok(frame) => lz4_frame(data@, level) == Some(frame@) && lz4_content(frame@) == Some(
                data@,
            ),
            Err(_) => lz4_frame(data@, level) is None,
        },
{
    let mut encoder = EncoderBuilder::new().level(level).build(Vec::new())?;
    encoder.write_all(data)?;
    let (frame, done) = encoder.finish();
    done.map(|_| frame)
}

/// An `lz4::Decoder` over `frame`, read to the end. The decoder reads
/// from memory only: whether it yields anything, and what, depends on
/// `frame` alone.
#[verifier::external_body]
pub(crate) fn decompress(frame: &[u8]) -> (r: Result<Vec<u8>, std::io::Error>)
    ensures
        match r {
            Ok(data) => lz4_content(frame@) == Some(data@),
            Err(_) => lz4_content(frame@) is None,
        },
{
    let mut decoder = Decoder::new(frame)?;
    let mut data = Vec::new();
    decoder.read_to_end(&mut data)?;
    Ok(data)
}

/// `String::from_utf8` of the standard library: the text of bytes that are
/// UTF-8, `None` for bytes that are not.
#[verifier::external_body]
pub(crate) fn utf8_text(bytes: Vec<u8>) -> (r: Option<String>)
    ensures
        match r {
            Some(s) => valid_utf8(bytes@) && s@ == decode_utf8(bytes@),
            None => !valid_utf8(bytes@),
        },
{
    String::from_utf8(bytes).ok()
}

/// The message of a `std::io::Error` (its `Display` form). Nothing is
/// claimed of the message.
#[verifier::external_body]
pub(crate) fn io_error_message(e: &std::io::Error) -> String {
    e.to_string()
}

/// Why an operation of the store failed.
#[derive(Debug)]
pub enum StoreError {
    /// The key to delete is not there.
    NotFound,
    /// A snapshot could not be encoded; the message says why.
    Encoding(String),
}

impl StoreError {
    /// The message sent to a client.
    pub fn message(&self) -> (r: String)
        ensures
            r@ == self.message_spec(),
    {
        match self {
            StoreError::NotFound => "Key not found".to_owned(),
            StoreError::Encoding(m) => m.clone(),
        }
    }

    pub open spec fn message_spec(&self) -> Seq<char> {
        match self {
            StoreError::NotFound => "Key not found"@,
            StoreError::Encoding(m) => m@,
        }
    }
}

/// A write for the caller to carry out: `bytes` go to the file at `path`,
/// after what is there if `append` is set, in its place if not.
#[derive(Debug)]
pub struct FileWrite {
    pub path: String,
    pub bytes: Vec<u8>,
    pub append: bool,
}

/// The LZ4 level of snapshots.
pub const SNAPSHOT_LEVEL: u32 = 4;

/// The path of a file of shard `id`: `<data_dir>/shard_<id><suffix>`.
pub open spec fn shard_file(data_dir: Seq<char>, id: u32, suffix: Seq<char>) -> Seq<char> {
    data_dir + "/shard_"@ + decimal_text(id as nat) + suffix
}

/// The path of the write-ahead log of shard `id`.
pub open spec fn wal_path_spec(data_dir: Seq<char>, id: u32) -> Seq<char> {
    shard_file(data_dir, id, ".wal"@)
}

/// The path of the snapshot of shard `id`.
pub open spec fn snapshot_path_spec(data_dir: Seq<char>, id: u32) -> Seq<char> {
    shard_file(data_dir, id, ".bin.lz4"@)
}

fn shard_path(data_dir: &str, id: u32, suffix: &str) -> (r: String)
    ensures
        r@ == shard_file(data_dir@, id, suffix@),
{
    let mut r = String::new();
    push_text(&mut r, data_dir);
    push_text(&mut r, "/shard_");
    push_decimal(&mut r, id as u64);
    push_text(&mut r, suffix);
    assert(r@ =~= shard_file(data_dir@, id, suffix@));
    r
}

/// The path of the write-ahead log of shard `id`.
pub fn wal_path(data_dir: &str, id: u32) -> (r: String)
    ensures
        r@ == wal_path_spec(data_dir@, id),
{
    shard_path(data_dir, id, ".wal")
}

/// The path of the snapshot of shard `id`.
pub fn snapshot_path(data_dir: &str, id: u32) -> (r: String)
    ensures
        r@ == snapshot_path_spec(data_dir@, id),
{
    shard_path(data_dir, id, ".bin.lz4")
}

/// The line that records a write in the log: the JSON array of the key and
/// the document, and a line feed.
pub open spec fn wal_line(key: Seq<char>, value: Json) -> Seq<char> {
    json_text(Json::Array(seq![Json::String(key), value])).push('\n')
}

/// The log entry of one write to shard `shard_id`.
pub fn append_to_wal(data_dir: &str, shard_id: u32, key: String, value: Value) -> (w: FileWrite)
    ensures
        w.path@ == wal_path_spec(data_dir@, shard_id),
        w.bytes@ == encode_utf8(wal_line(key@, json_of(value))),
        w.append,
{
    let mut pair: Vec<Value> = Vec::new();
    pair.push(string_value(key));
    pair.push(value);
    assert(jsons(pair@) =~= seq![Json::String(key@), json_of(value)]);
    let mut line = to_text(&array_value(pair));
    line.push('\n');
    FileWrite { path: wal_path(data_dir, shard_id), bytes: line.as_str().as_bytes_vec(), append: true }
}

/// The key and the document that a JSON array of a string and one more
/// document stands for.
pub open spec fn pair_of(doc: Json) -> Option<(Seq<char>, Json)> {
    match doc {
        Json::Array(items) => if items.len() == 2 {
            match items[0] {
                Json::String(key) => Some((key, items[1])),
                _ => None,
            }
        } else {
            None
        },
        _ => None,
    }
}

/// The write that a line of the log records, if the line is the text of a
/// JSON array of a string and one more document.
pub open spec fn wal_entry(line: Seq<char>) -> Option<(Seq<char>, Json)> {
    match json_parse(line) {
        None => None,
        Some(doc) => pair_of(doc),
    }
}

/// Reads a JSON array of a key and a document.
pub fn read_pair(doc: &Value) -> (r: Option<(String, Value)>)
    ensures
        match r {
            Some(e) => pair_of(json_of(*doc)) == Some((e.0@, json_of(e.1))),
            None => pair_of(json_of(*doc)) is None,
        },
{
    let items = match elements(doc) {
        Some(items) => items,
        None => {
            return None;
        },
    };
    if items.len() != 2 {
        return None;
    }
    match as_str(&items[0]) {
        Some(key) => Some((key.to_owned(), clone_value(&items[1]))),
        None => None,
    }
}

/// The writes that lines of a log record, in order; a line that records
/// none is passed over.
pub open spec fn wal_entries(lines: Seq<Seq<char>>) -> Seq<(Seq<char>, Json)>
    decreases lines.len(),
{
    if lines.len() == 0 {
        Seq::empty()
    } else {
        let before = wal_entries(lines.drop_last());
        match wal_entry(lines.last()) {
            Some(e) => before.push(e),
            None => before,
        }
    }
}

/// The lines of a log begin with the first: its write, if it records one,
/// comes before those of the lines after it.
pub proof fn lemma_wal_entries_front(line: Seq<char>, rest: Seq<Seq<char>>)
    ensures
        wal_entries(seq![line] + rest) == match wal_entry(line) {
            Some(e) => seq![e] + wal_entries(rest),
            None => wal_entries(rest),
        },
    decreases rest.len(),
{
    let all = seq![line] + rest;
    if rest.len() == 0 {
        assert(all.drop_last() =~= Seq::<Seq<char>>::empty());
        assert(all.last() == line);
        assert(wal_entries(all.drop_last()) =~= Seq::<(Seq<char>, Json)>::empty());
        match wal_entry(line) {
            Some(e) => {
                assert(wal_entries(all) =~= seq![e] + wal_entries(rest));
            },
            None => {},
        }
    } else {
        assert(all.drop_last() =~= seq![line] + rest.drop_last());
        assert(all.last() == rest.last());
        lemma_wal_entries_front(line, rest.drop_last());
        match (wal_entry(line), wal_entry(rest.last())) {
            (Some(e), Some(l)) => {
                assert(wal_entries(all) =~= seq![e] + wal_entries(rest));
            },
            _ => {},
        }
    }
}

/// The text of a log that records the given writes, in order.
pub open spec fn log_text(entries: Seq<(Seq<char>, Json)>) -> Seq<char>
    decreases entries.len(),
{
    if entries.len() == 0 {
        Seq::empty()
    } else {
        wal_line(entries[0].0, entries[0].1) + log_text(entries.drop_first())
    }
}

/// A list of records as keys' texts and documents.
pub open spec fn pairs_view(list: Seq<(String, Value)>) -> Seq<(Seq<char>, Json)> {
    Seq::new(list.len(), |i: int| (list[i].0@, json_of(list[i].1)))
}

/// Reads one line of a log.
pub fn read_wal_line(line: &str) -> (r: Option<(String, Value)>)
    ensures
        match r {
            Some(e) => wal_entry(line@) == Some((e.0@, json_of(e.1))),
            None => wal_entry(line@) is None,
        },
{
    match parse(line) {
        Ok(doc) => read_pair(&doc),
        Err(_) => None,
    }
}

/// The writes recorded in the text of a log, in order. Lines end at a line
/// feed; a line that is no record is passed over.
pub fn load_from_wal(text: &str) -> (r: Vec<(String, Value)>)
    ensures
        pairs_view(r@) == wal_entries(pieces(text@, '\n', 0)),
{
    let lines = split_on(text, '\n');
    let mut r: Vec<(String, Value)> = Vec::new();
    let mut i: usize = 0;
    assert(views(lines@).take(0) =~= Seq::<Seq<char>>::empty());
    assert(pairs_view(r@) =~= Seq::<(Seq<char>, Json)>::empty());
    while i < lines.len()
        invariant
            i <= lines.len(),
            pairs_view(r@) == wal_entries(views(lines@).take(i as int)),
        decreases lines.len() - i,
    {
        let ghost before = pairs_view(r@);
        let ghost done = views(lines@).take(i + 1);
        assert(done.drop_last() =~= views(lines@).take(i as int));
        assert(done.last() == lines@[i as int]@);
        match read_wal_line(lines[i].as_str()) {
            Some(e) => {
                r.push(e);
                assert(pairs_view(r@) =~= before.push((e.0@, json_of(e.1))));
            },
            None => {},
        }
        i = i + 1;
    }
    assert(views(lines@).take(lines.len() as int) =~= views(lines@));
    r
}

/// What a snapshot of given records holds before it is compressed: the
/// text of the JSON object of the records, in UTF-8.
pub open spec fn snapshot_content(records: Map<Seq<char>, Json>) -> Seq<u8> {
    encode_utf8(json_text(Json::Object(records)))
}

/// The bytes of the snapshot of given records: the LZ4 frame of their
/// content; `None` where the encoder refuses it.
pub open spec fn snapshot_bytes(records: Map<Seq<char>, Json>) -> Option<Seq<u8>> {
    lz4_frame(snapshot_content(records), SNAPSHOT_LEVEL)
}

/// `bytes` are the snapshot of `records`, and the decoder reads the
/// content of that snapshot from them.
pub open spec fn is_snapshot(bytes: Seq<u8>, records: Map<Seq<char>, Json>) -> bool {
    &&& snapshot_bytes(records) == Some(bytes)
    &&& lz4_content(bytes) == Some(snapshot_content(records))
}

/// The snapshot of a shard, to be written over the one on disk. Fails
/// exactly where the encoder refuses the records' text.
pub fn save_shard_to_disk(data_dir: &str, shard_id: u32, shard: &DashMap<String, Value>) -> (r:
    Result<FileWrite, StoreError>)
    ensures
        match r {
            Ok(w) => w.path@ == snapshot_path_spec(data_dir@, shard_id) && is_snapshot(
                w.bytes@,
                shard_entries(*shard),
            ) && !w.append,
            Err(e) => e is Encoding && snapshot_bytes(shard_entries(*shard)) is None,
        },
{
    let text = to_text(&object_value(shard_list(shard)));
    match compress(text.as_str().as_bytes(), SNAPSHOT_LEVEL) {
        Ok(bytes) => Ok(FileWrite { path: snapshot_path(data_dir, shard_id), bytes, append: false }),
        Err(e) => Err(StoreError::Encoding(io_error_message(&e))),
    }
}

/// The records that the content of a snapshot spells: the members of the
/// JSON object that the bytes are the text of. Bytes that are no such text
/// spell no records.
pub open spec fn snapshot_records(content: Seq<u8>) -> Map<Seq<char>, Json> {
    if valid_utf8(content) {
        match json_parse(decode_utf8(content)) {
            Some(doc) => members_of(doc),
            None => Map::empty(),
        }
    } else {
        Map::empty()
    }
}

/// Reads the content of a snapshot, once decompressed.
pub fn read_snapshot(content: Vec<u8>) -> (r: Vec<(String, Value)>)
    ensures
        distinct_keys(r@),
        json_entries(r@) == snapshot_records(content@),
{
    let nothing: Vec<(String, Value)> = Vec::new();
    assert(json_entries(nothing@) =~= Map::<Seq<char>, Json>::empty());
    let text = match utf8_text(content) {
        Some(text) => text,
        None => {
            return nothing;
        },
    };
    let doc = match parse(text.as_str()) {
        Ok(doc) => doc,
        Err(_) => {
            return nothing;
        },
    };
    match members(&doc) {
        Some(list) => list,
        None => nothing,
    }
}

/// The records that a snapshot file spells: those of what its LZ4 frame
/// holds. A file that is no frame spells no records.
pub open spec fn frame_records(frame: Seq<u8>) -> Map<Seq<char>, Json> {
    match lz4_content(frame) {
        Some(content) => snapshot_records(content),
        None => Map::empty(),
    }
}

/// The records of a snapshot as found on disk. A snapshot that cannot be
/// read counts as empty.
pub fn load_shard_from_disk(snapshot: &[u8]) -> (r: Vec<(String, Value)>)
    ensures
        distinct_keys(r@),
        json_entries(r@) == frame_records(snapshot@),
{
    match decompress(snapshot) {
        Ok(content) => read_snapshot(content),
        Err(_) => {
            let nothing: Vec<(String, Value)> = Vec::new();
            assert(json_entries(nothing@) =~= Map::<Seq<char>, Json>::empty());
            nothing
        },
    }
}

} // verus!
