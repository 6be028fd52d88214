//! The byte form of log records.
//!
//! A record is one JSON object with a single member named after the kind of
//! entry: `{"Set":{"key":K,"value":V}}` or `{"Rm":{"key":K}}`, where `K` and
//! `V` are JSON strings. Records are written back to back, with nothing
//! between them. Turning text into a JSON string and reading JSON objects is
//! left to `serde_json`; the shape of a record is decided here.

use vstd::prelude::*;
use std::collections::BTreeMap;
use vstd::string::StringExecFns;
use crate::error::KvsError;

verus! {

/// The JSON string literal, quotes included, that `serde_json` writes for a
/// text; `None` where it refuses the text.
pub uninterp spec fn json_text(text: Seq<char>) -> Option<Seq<u8>>;

/// What `serde_json` reads from bytes that hold exactly one JSON object whose
/// members are objects with string members: each outer member with its inner
/// members, in ascending order of names. `None` where it rejects the bytes.
pub uninterp spec fn json_object(bytes: Seq<u8>) -> Option<Seq<(Seq<char>, Seq<(Seq<char>, Seq<char>)>)>>;

/// What `serde_json` reads at the front of a stream of JSON objects: `None`
/// where only white space is left, `Some(None)` where the front is rejected,
/// and otherwise the first object together with the number of bytes of the
/// stream that were read to get it.
pub uninterp spec fn json_stream_front(bytes: Seq<u8>) -> Option<Option<(Seq<(Seq<char>, Seq<(Seq<char>, Seq<char>)>)>, nat)>>;

/// Calls `serde_json::to_vec` on a string slice. The contract only names the
/// bytes that come back: the same text always gives the same bytes.
#[verifier::external_body]
pub(crate) fn encode_text(text: &str) -> (out: Result<Vec<u8>, serde_json::Error>)
    ensures
        match out {
            Ok(bytes) => json_text(text@) == Some(bytes@),
            Err(_) => json_text(text@) is None,
        },
{
    serde_json::to_vec(text)
}

/// Calls `serde_json::from_slice` for a map of maps of strings and hands the
/// members out as pairs. The contract only names what was read.
#[verifier::external_body]
pub(crate) fn decode_object(bytes: &[u8]) -> (out: Result<Vec<(String, Vec<(String, String)>)>, serde_json::Error>)
    ensures
        match out {
            Ok(raw) => json_object(bytes@) == Some(raw.deep_view()),
            Err(_) => json_object(bytes@) is None,
        },
{
    let parsed: BTreeMap<String, BTreeMap<String, String>> = serde_json::from_slice(bytes)?;
    Ok(parsed.into_iter().map(|(tag, members)| (tag, members.into_iter().collect())).collect())
}

/// Reads the first value of a `serde_json` stream deserializer over `bytes`
/// and the deserializer's `byte_offset` after it. Besides naming the outcome,
/// the contract states that an object that was read took at least one byte and
/// no more bytes than the stream holds.
#[verifier::external_body]
pub(crate) fn decode_front(bytes: &[u8]) -> (out: Option<Result<(Vec<(String, Vec<(String, String)>)>, usize), serde_json::Error>>)
    ensures
        match out {
            None => json_stream_front(bytes@) is None,
            Some(Err(_)) => json_stream_front(bytes@) == Some(None::<(Seq<(Seq<char>, Seq<(Seq<char>, Seq<char>)>)>, nat)>),
            Some(Ok((raw, used))) => json_stream_front(bytes@) == Some(Some((raw.deep_view(), used as nat)))
                && 0 < used <= bytes@.len(),
        },
{
    let mut stream = serde_json::Deserializer::from_slice(bytes)
        .into_iter::<BTreeMap<String, BTreeMap<String, String>>>();
    match stream.next()? {
        Ok(parsed) => Some(Ok((
            parsed.into_iter().map(|(tag, members)| (tag, members.into_iter().collect())).collect(),
            stream.byte_offset(),
        ))),
        Err(e) => Some(Err(e)),
    }
}

/// Calls `serde::de::Error::custom` of `serde_json::Error` to make the error
/// for an object that is valid JSON but no record. Nothing is claimed of it.
#[verifier::external_body]
fn shape_error(reason: &str) -> (e: serde_json::Error) {
    <serde_json::Error as serde::de::Error>::custom(reason)
}

/// One record of the log.
#[derive(Debug)]
pub enum LogEntry {
    /// Binds `value` to `key`.
    SetKey { key: String, value: String },
    /// Unbinds `key`.
    Rm { key: String },
}

/// A record of the log as a mathematical value.
pub ghost enum LogEntryView {
    SetKey { key: Seq<char>, value: Seq<char> },
    Rm { key: Seq<char> },
}

impl View for LogEntry {
    type V = LogEntryView;

    open spec fn view(&self) -> LogEntryView {
        match self {
            LogEntry::SetKey { key, value } => LogEntryView::SetKey { key: key@, value: value@ },
            LogEntry::Rm { key } => LogEntryView::Rm { key: key@ },
        }
    }
}

impl LogEntryView {
    /// The key that the record speaks of.
    pub open spec fn key(self) -> Seq<char> {
        match self {
            LogEntryView::SetKey { key, .. } => key,
            LogEntryView::Rm { key } => key,
        }
    }
}

/// The bytes `{"Set":{"key":`.
pub open spec fn set_head() -> Seq<u8> {
    seq![
        0x7bu8, 0x22u8, 0x53u8, 0x65u8, 0x74u8, 0x22u8, 0x3au8, 0x7bu8, 0x22u8, 0x6bu8, 0x65u8,
        0x79u8, 0x22u8, 0x3au8,
    ]
}

/// The bytes `{"Rm":{"key":`.
pub open spec fn rm_head() -> Seq<u8> {
    seq![
        0x7bu8, 0x22u8, 0x52u8, 0x6du8, 0x22u8, 0x3au8, 0x7bu8, 0x22u8, 0x6bu8, 0x65u8, 0x79u8,
        0x22u8, 0x3au8,
    ]
}

/// The bytes `,"value":`.
pub open spec fn value_head() -> Seq<u8> {
    seq![0x2cu8, 0x22u8, 0x76u8, 0x61u8, 0x6cu8, 0x75u8, 0x65u8, 0x22u8, 0x3au8]
}

/// The bytes `}}`.
pub open spec fn record_tail() -> Seq<u8> {
    seq![0x7du8, 0x7du8]
}

/// The record that binds a value to a key, given both as JSON strings.
pub open spec fn frame_set(key_json: Seq<u8>, value_json: Seq<u8>) -> Seq<u8> {
    set_head() + key_json + value_head() + value_json + record_tail()
}

/// The record that unbinds a key, given as a JSON string.
pub open spec fn frame_rm(key_json: Seq<u8>) -> Seq<u8> {
    rm_head() + key_json + record_tail()
}

/// The bytes of a record, where `serde_json` accepts its texts.
pub open spec fn record_bytes(entry: LogEntryView) -> Option<Seq<u8>> {
    match entry {
        LogEntryView::SetKey { key, value } => match (json_text(key), json_text(value)) {
            (Some(k), Some(v)) => Some(frame_set(k, v)),
            _ => None,
        },
        LogEntryView::Rm { key } => match json_text(key) {
            Some(k) => Some(frame_rm(k)),
            None => None,
        },
    }
}

/// The value of the first member called `name`, if there is one.
pub open spec fn member(fields: Seq<(Seq<char>, Seq<char>)>, name: Seq<char>) -> Option<Seq<char>>
    decreases fields.len(),
{
    if fields.len() == 0 {
        None
    } else if fields[0].0 == name {
        Some(fields[0].1)
    } else {
        member(fields.skip(1), name)
    }
}

/// The record that an object stands for: it has exactly one member, called
/// `Set` and holding a `key` and a `value`, or called `Rm` and holding a
/// `key`. Other inner members are ignored.
pub open spec fn raw_entry(raw: Seq<(Seq<char>, Seq<(Seq<char>, Seq<char>)>)>) -> Option<LogEntryView> {
    if raw.len() != 1 {
        None
    } else if raw[0].0 == "Set"@ {
        match (member(raw[0].1, "key"@), member(raw[0].1, "value"@)) {
            (Some(key), Some(value)) => Some(LogEntryView::SetKey { key, value }),
            _ => None,
        }
    } else if raw[0].0 == "Rm"@ {
        match member(raw[0].1, "key"@) {
            Some(key) => Some(LogEntryView::Rm { key }),
            None => None,
        }
    } else {
        None
    }
}

/// The record that a run of bytes holds when read on its own.
pub open spec fn decoded(bytes: Seq<u8>) -> Option<LogEntryView> {
    match json_object(bytes) {
        Some(raw) => raw_entry(raw),
        None => None,
    }
}

/// The first record of a stream and the number of bytes it takes, `None` at
/// the end of the stream, `Some(None)` where the front is no record.
pub open spec fn stream_front(bytes: Seq<u8>) -> Option<Option<(LogEntryView, nat)>> {
    match json_stream_front(bytes) {
        None => None,
        Some(None) => Some(None),
        Some(Some((raw, used))) => match raw_entry(raw) {
            Some(entry) => Some(Some((entry, used))),
            None => Some(None),
        },
    }
}

fn append_bytes(out: &mut Vec<u8>, bytes: &Vec<u8>)
    ensures
        final(out)@ == old(out)@ + bytes@,
{
    out.extend_from_slice(bytes.as_slice());
}

/// Frames the record that binds a value to a key; both come as JSON strings.
pub fn frame_set_record(key_json: &Vec<u8>, value_json: &Vec<u8>) -> (out: Vec<u8>)
    ensures
        out@ == frame_set(key_json@, value_json@),
{
    let mut out: Vec<u8> = vec![
        0x7bu8, 0x22u8, 0x53u8, 0x65u8, 0x74u8, 0x22u8, 0x3au8, 0x7bu8, 0x22u8, 0x6bu8, 0x65u8,
        0x79u8, 0x22u8, 0x3au8,
    ];
    let middle: Vec<u8> = vec![0x2cu8, 0x22u8, 0x76u8, 0x61u8, 0x6cu8, 0x75u8, 0x65u8, 0x22u8, 0x3au8];
    let tail: Vec<u8> = vec![0x7du8, 0x7du8];
    assert(out@ =~= set_head());
    assert(middle@ =~= value_head());
    assert(tail@ =~= record_tail());
    append_bytes(&mut out, key_json);
    append_bytes(&mut out, &middle);
    append_bytes(&mut out, value_json);
    append_bytes(&mut out, &tail);
    out
}

/// Frames the record that unbinds a key; the key comes as a JSON string.
pub fn frame_rm_record(key_json: &Vec<u8>) -> (out: Vec<u8>)
    ensures
        out@ == frame_rm(key_json@),
{
    let mut out: Vec<u8> = vec![
        0x7bu8, 0x22u8, 0x52u8, 0x6du8, 0x22u8, 0x3au8, 0x7bu8, 0x22u8, 0x6bu8, 0x65u8, 0x79u8,
        0x22u8, 0x3au8,
    ];
    let tail: Vec<u8> = vec![0x7du8, 0x7du8];
    assert(out@ =~= rm_head());
    assert(tail@ =~= record_tail());
    append_bytes(&mut out, key_json);
    append_bytes(&mut out, &tail);
    out
}

/// Encodes a record. It fails, with `SerdeError`, exactly where `serde_json`
/// refuses one of the record's texts.
pub fn encode_entry(entry: &LogEntry) -> (out: Result<Vec<u8>, KvsError>)
    ensures
        match out {
            Ok(bytes) => record_bytes(entry@) == Some(bytes@),
            Err(e) => record_bytes(entry@) is None && e is SerdeError,
        },
{
    match entry {
        LogEntry::SetKey { key, value } => {
            let key_json = match encode_text(key.as_str()) {
                Ok(bytes) => bytes,
                Err(e) => { return Err(KvsError::SerdeError(e)); },
            };
            let value_json = match encode_text(value.as_str()) {
                Ok(bytes) => bytes,
                Err(e) => { return Err(KvsError::SerdeError(e)); },
            };
            Ok(frame_set_record(&key_json, &value_json))
        },
        LogEntry::Rm { key } => {
            let key_json = match encode_text(key.as_str()) {
                Ok(bytes) => bytes,
                Err(e) => { return Err(KvsError::SerdeError(e)); },
            };
            Ok(frame_rm_record(&key_json))
        },
    }
}

fn text_is(text: &String, word: &str) -> (same: bool)
    ensures
        same == (text@ == word@),
{
    let other = String::from_str(word);
    *text == other
}

/// Looks up the first member called `name`.
pub fn find_member(fields: &Vec<(String, String)>, name: &str) -> (out: Option<String>)
    ensures
        match out {
            Some(value) => member(fields.deep_view(), name@) == Some(value@),
            None => member(fields.deep_view(), name@) is None,
        },
{
    let ghost all = fields.deep_view();
    let mut i: usize = 0;
    assert(all.skip(0) =~= all);
    while i < fields.len()
        invariant
            i <= fields.len(),
            all == fields.deep_view(),
            member(all, name@) == member(all.skip(i as int), name@),
        decreases fields.len() - i,
    {
        proof {
            assert(all.skip(i as int)[0] == all[i as int]);
            assert(all.skip(i as int).skip(1) =~= all.skip(i as int + 1));
        }
        if text_is(&fields[i].0, name) {
            return Some(fields[i].1.clone());
        }
        i = i + 1;
    }
    None
}

/// Reads an object, given by its members, as a record.
pub fn entry_of_raw(raw: &Vec<(String, Vec<(String, String)>)>) -> (out: Option<LogEntry>)
    ensures
        match out {
            Some(entry) => raw_entry(raw.deep_view()) == Some(entry@),
            None => raw_entry(raw.deep_view()) is None,
        },
{
    if raw.len() != 1 {
        return None;
    }
    assert(raw.deep_view()[0] == raw@[0].deep_view());
    if text_is(&raw[0].0, "Set") {
        let key = find_member(&raw[0].1, "key");
        let value = find_member(&raw[0].1, "value");
        match (key, value) {
            (Some(key), Some(value)) => Some(LogEntry::SetKey { key, value }),
            _ => None,
        }
    } else if text_is(&raw[0].0, "Rm") {
        match find_member(&raw[0].1, "key") {
            Some(key) => Some(LogEntry::Rm { key }),
            None => None,
        }
    } else {
        None
    }
}

/// Decodes bytes that hold exactly one record. It fails, with `SerdeError`,
/// exactly where the bytes are no JSON object or the object is no record.
pub fn decode_entry(bytes: &[u8]) -> (out: Result<LogEntry, KvsError>)
    ensures
        match out {
            Ok(entry) => decoded(bytes@) == Some(entry@),
            Err(e) => decoded(bytes@) is None && e is SerdeError,
        },
{
    match decode_object(bytes) {
        Ok(raw) => match entry_of_raw(&raw) {
            Some(entry) => Ok(entry),
            None => Err(KvsError::SerdeError(shape_error("not a log record"))),
        },
        Err(e) => Err(KvsError::SerdeError(e)),
    }
}

/// Decodes the record at the front of a stream of records and tells how many
/// bytes it takes: `None` at the end of the stream, an error where the front
/// is no record.
pub fn decode_stream_front(bytes: &[u8]) -> (out: Option<Result<(LogEntry, usize), KvsError>>)
    ensures
        match out {
            None => stream_front(bytes@) is None,
            Some(Err(e)) => stream_front(bytes@) == Some(None::<(LogEntryView, nat)>) && e is SerdeError,
            Some(Ok((entry, used))) => stream_front(bytes@) == Some(Some((entry@, used as nat)))
                && 0 < used <= bytes@.len(),
        },
{
    match decode_front(bytes) {
        None => None,
        Some(Err(e)) => Some(Err(KvsError::SerdeError(e))),
        Some(Ok((raw, used))) => match entry_of_raw(&raw) {
            Some(entry) => Some(Ok((entry, used))),
            None => Some(Err(KvsError::SerdeError(shape_error("not a log record")))),
        },
    }
}

} // verus!
