//! Reading the sort key of a record: parse the line as JSON, follow a JSON
//! pointer, read the value there as a signed 64-bit integer.
use vstd::prelude::*;
use crate::merge::KeyedRecord;

verus! {

#[verifier::external_type_specification]
#[verifier::external_body]
pub struct ExValue(serde_json::Value);

#[verifier::external_type_specification]
#[verifier::external_body]
pub struct ExJsonError(serde_json::Error);

/// The value that `serde_json::from_str` parses from a text, or `None` where
/// it reports an error.
pub uninterp spec fn parsed_json(text: Seq<char>) -> Option<serde_json::Value>;

/// The value that `Value::pointer` finds at a JSON pointer, if any.
pub uninterp spec fn json_pointer(v: serde_json::Value, pointer: Seq<char>) -> Option<serde_json::Value>;

/// The integer that `Value::as_i64` reads from a value, if it is one that
/// fits in an `i64`.
pub uninterp spec fn json_as_i64(v: serde_json::Value) -> Option<i64>;

/// Relies on serde_json::from_str: parses a JSON text into a value, or
/// reports an error; the outcome depends on the text alone.
#[verifier::external_body]
fn parse_json(text: &str) -> (r: Result<serde_json::Value, serde_json::Error>)
    ensures
        match r {
            Ok(v) => parsed_json(text@) == Some(v),
            Err(_) => parsed_json(text@) is None,
        },
{
    serde_json::from_str::<serde_json::Value>(text)
}

/// Relies on serde_json::Value::pointer: the value addressed by a JSON
/// pointer (RFC 6901), or `None` where the pointer leads nowhere.
#[verifier::external_body]
fn pointer_of<'a>(v: &'a serde_json::Value, pointer: &str) -> (r: Option<&'a serde_json::Value>)
    ensures
        match r {
            Some(x) => json_pointer(*v, pointer@) == Some(*x),
            None => json_pointer(*v, pointer@) is None,
        },
{
    v.pointer(pointer)
}

/// Relies on serde_json::Value::as_i64: the integer held by a number value
/// that fits in an `i64`, else `None`.
#[verifier::external_body]
fn as_i64_of(v: &serde_json::Value) -> (r: Option<i64>)
    ensures
        r == json_as_i64(*v),
{
    v.as_i64()
}

/// Why no sort key could be read from a record.
#[derive(Clone, Copy, Debug, PartialEq, Eq, Structural)]
pub enum KeyFault {
    /// The line is not valid JSON.
    Malformed,
    /// Nothing is found at the sort field path.
    MissingField,
    /// The value at the sort field path is not an integer that fits in an `i64`.
    NotInteger,
}

/// A record whose sort key could not be read, with the path that was
/// followed and the offending line.
#[derive(Debug)]
pub struct RecordError {
    pub fault: KeyFault,
    pub path: String,
    pub line: String,
}

/// The sort key of a parsed record at a path, or why there is none.
pub open spec fn sort_key_of(v: serde_json::Value, path: Seq<char>) -> Result<i64, KeyFault> {
    match json_pointer(v, path) {
        None => Err(KeyFault::MissingField),
        Some(x) => match json_as_i64(x) {
            None => Err(KeyFault::NotInteger),
            Some(k) => Ok(k),
        },
    }
}

/// The sort key of a record line at a path, or why there is none.
pub open spec fn line_key(line: Seq<char>, path: Seq<char>) -> Result<i64, KeyFault> {
    match parsed_json(line) {
        None => Err(KeyFault::Malformed),
        Some(v) => sort_key_of(v, path),
    }
}

/// Follows `sort_field_path` and reads the integer there, or says why
/// there is none.
fn lookup_sort_field(json: &serde_json::Value, sort_field_path: &str) -> (r: Result<i64, KeyFault>)
    ensures
        r == sort_key_of(*json, sort_field_path@),
{
    match pointer_of(json, sort_field_path) {
        None => Err(KeyFault::MissingField),
        Some(x) => match as_i64_of(x) {
            None => Err(KeyFault::NotInteger),
            Some(k) => Ok(k),
        },
    }
}

/// Reads the integer at `sort_field_path`, a JSON pointer such as `/a/b`.
/// A record without an `i64` there cannot be merged at all, so it is left
/// out by the precondition; `keyed_record` reports such records.
pub fn extract_sort_field(json: &serde_json::Value, sort_field_path: &str) -> (r: i64)
    requires
        sort_key_of(*json, sort_field_path@) is Ok,
    ensures
        Ok::<i64, KeyFault>(r) == sort_key_of(*json, sort_field_path@),
{
    match lookup_sort_field(json, sort_field_path) {
        Ok(k) => k,
        Err(_) => vstd::pervasive::unreached(),
    }
}

/// Parses a record line and reads its sort key; the line is kept as it was
/// read. A line that is not JSON, or has no `i64` at the path, gives an
/// error holding the fault, the path and the line: the caller is to end the
/// merge there, not skip the record.
pub fn keyed_record(line: String, sort_field_path: &str) -> (r: Result<KeyedRecord, RecordError>)
    ensures
        match r {
            Ok(rec) => line_key(line@, sort_field_path@) == Ok::<i64, KeyFault>(rec.sort_field)
                && rec.line@ == line@,
            Err(e) => line_key(line@, sort_field_path@) == Err::<i64, KeyFault>(e.fault)
                && e.line@ == line@ && e.path@ == sort_field_path@,
        },
{
    let key = match parse_json(line.as_str()) {
        Err(_) => Err(KeyFault::Malformed),
        Ok(v) => lookup_sort_field(&v, sort_field_path),
    };
    match key {
        Ok(k) => Ok(KeyedRecord { sort_field: k, line }),
        Err(fault) => Err(RecordError { fault, path: sort_field_path.to_string(), line }),
    }
}

} // verus!
