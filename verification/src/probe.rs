//! Reading what `ffprobe` says about the size of a video's picture.

use serde_json::Value;
use vstd::prelude::*;

verus! {

/// A JSON value as `serde_json` holds it.
#[verifier::external_type_specification]
#[verifier::external_body]
pub struct ExValue(serde_json::Value);

/// What a JSON value holds.
pub enum Json {
    Null,
    Bool(bool),
    /// A whole number from 0 to the largest of 64 bits.
    Unsigned(u64),
    /// Any other number.
    OtherNumber,
    Text(Seq<char>),
    List(Seq<Json>),
    Object(Map<Seq<char>, Json>),
}

/// What a value of `serde_json` holds.
pub uninterp spec fn json_of(value: serde_json::Value) -> Json;

/// What `serde_json::from_str` reads from a text: the value that the text stands
/// for, or the message of the error that it finds.
pub uninterp spec fn parsed_json(text: Seq<char>) -> Result<Json, Seq<char>>;

/// `serde_json::from_str`, for a value of any kind. What it reads, or the text of
/// its error, depends on nothing but the text.
#[verifier::external_body]
fn parse_json(text: &str) -> (parsed: Result<Value, String>)
    ensures
        match parsed {
            Ok(value) => parsed_json(text@) == Ok::<Json, Seq<char>>(json_of(value)),
            Err(message) => parsed_json(text@) == Err::<Json, Seq<char>>(message@),
        },
{
    match serde_json::from_str::<Value>(text) {
        Ok(value) => Ok(value),
        Err(error) => Err(error.to_string()),
    }
}

/// The member `key` of an object. It is null where there is none, and of anything
/// but an object.
pub open spec fn member_of(json: Json, key: Seq<char>) -> Json {
    match json {
        Json::Object(members) => if members.contains_key(key) {
            members[key]
        } else {
            Json::Null
        },
        _ => Json::Null,
    }
}

/// Indexing a `serde_json::Value` by a text: the member of an object under that
/// key, or null where there is none and for anything but an object.
#[verifier::external_body]
fn member<'a>(value: &'a Value, key: &str) -> (found: &'a Value)
    ensures
        json_of(*found) == member_of(json_of(*value), key@),
{
    &value[key]
}

/// The element `index` of a list, if there is one.
pub open spec fn element_of(json: Json, index: nat) -> Option<Json> {
    match json {
        Json::List(elements) => if index < elements.len() {
            Some(elements[index as int])
        } else {
            None
        },
        _ => None,
    }
}

/// `serde_json::Value::get` with a number: the element of a list at that place,
/// or nothing where there is none and for anything but a list.
#[verifier::external_body]
fn element(value: &Value, index: usize) -> (found: Option<&Value>)
    ensures
        match found {
            Some(v) => element_of(json_of(*value), index as nat) == Some(json_of(*v)),
            None => element_of(json_of(*value), index as nat) is None,
        },
{
    value.get(index)
}

/// The number that a value is, if it is a whole one from 0 on.
pub open spec fn unsigned_of(json: Json) -> Option<u64> {
    match json {
        Json::Unsigned(n) => Some(n),
        _ => None,
    }
}

/// `serde_json::Value::as_u64`: the number, where the value is a whole one from 0
/// to the largest of 64 bits.
#[verifier::external_body]
fn unsigned(value: &Value) -> (number: Option<u64>)
    ensures
        number == unsigned_of(json_of(*value)),
{
    value.as_u64()
}

/// What is said of the size of a video stream.
#[derive(Clone, Copy, PartialEq, Eq)]
pub struct StreamSize {
    pub width: Option<u64>,
    pub height: Option<u64>,
}

/// Why the size of a picture could not be read.
pub enum ProbeError {
    /// The report is no JSON; the message says why.
    Json(String),
    NoVideoStream,
    NoWidth,
    NoHeight,
}

impl ProbeError {
    /// The text of the error.
    pub open spec fn text(self) -> Seq<char> {
        match self {
            ProbeError::Json(message) => message@,
            ProbeError::NoVideoStream => "No video stream found"@,
            ProbeError::NoWidth => "Could not read width"@,
            ProbeError::NoHeight => "Could not read height"@,
        }
    }

    /// The error in words.
    pub fn message(&self) -> (message: String)
        ensures
            message@ == self.text(),
    {
        match self {
            ProbeError::Json(message) => message.clone(),
            ProbeError::NoVideoStream => "No video stream found".to_owned(),
            ProbeError::NoWidth => "Could not read width".to_owned(),
            ProbeError::NoHeight => "Could not read height".to_owned(),
        }
    }
}

/// The size that the first stream of a report gives, if there is a stream.
pub open spec fn stream_size(report: Json) -> Option<StreamSize> {
    match element_of(member_of(report, "streams"@), 0) {
        Some(stream) => Some(
            StreamSize {
                width: unsigned_of(member_of(stream, "width"@)),
                height: unsigned_of(member_of(stream, "height"@)),
            },
        ),
        None => None,
    }
}

/// The lower 32 bits of a number.
pub open spec fn low_bits(n: u64) -> u32 {
    (n % 0x1_0000_0000) as u32
}

/// The size of the picture, from what is said of the first stream.
pub open spec fn dimensions(first: Option<StreamSize>) -> Result<(u32, u32), ProbeError> {
    match first {
        None => Err(ProbeError::NoVideoStream),
        Some(size) => match (size.width, size.height) {
            (None, _) => Err(ProbeError::NoWidth),
            (Some(_), None) => Err(ProbeError::NoHeight),
            (Some(w), Some(h)) => Ok((low_bits(w), low_bits(h))),
        },
    }
}

/// Cuts a number down to its lower 32 bits.
fn truncate(n: u64) -> (low: u32)
    ensures
        low == low_bits(n),
{
    assert((n % 0x1_0000_0000) as u32 == n as u32) by (bit_vector);
    #[verifier::truncate]
    (n as u32)
}

/// Works out the size of the picture from what is said of the first stream.
pub fn read_dimensions(first: Option<StreamSize>) -> (dims: Result<(u32, u32), ProbeError>)
    ensures
        dims == dimensions(first),
{
    let size: StreamSize = match first {
        Some(size) => size,
        None => return Err(ProbeError::NoVideoStream),
    };
    let w: u64 = match size.width {
        Some(w) => w,
        None => return Err(ProbeError::NoWidth),
    };
    let h: u64 = match size.height {
        Some(h) => h,
        None => return Err(ProbeError::NoHeight),
    };
    Ok((truncate(w), truncate(h)))
}

/// Reads what a report says of its first stream.
pub fn first_stream(report: &Value) -> (first: Option<StreamSize>)
    ensures
        first == stream_size(json_of(*report)),
{
    match element(member(report, "streams"), 0) {
        Some(stream) => Some(
            StreamSize {
                width: unsigned(member(stream, "width")),
                height: unsigned(member(stream, "height")),
            },
        ),
        None => None,
    }
}

/// Reads the size of a video's picture from the report of `ffprobe`.
pub fn get_video_dimensions(report: &str) -> (dims: Result<(u32, u32), ProbeError>)
    ensures
        match parsed_json(report@) {
            Ok(json) => dims == dimensions(stream_size(json)),
            Err(text) => dims matches Err(ProbeError::Json(message)) && message@ == text,
        },
{
    match parse_json(report) {
        Ok(value) => read_dimensions(first_stream(&value)),
        Err(message) => Err(ProbeError::Json(message)),
    }
}

/// What is read from a report, on the report itself: the member `streams` is a list
/// whose first element has whole numbers as `width` and `height`. A size that fits
/// into 32 bits is taken as it is. A report without a first stream, without a width
/// or without a height gives the error of the first of these that is missing.
pub proof fn law_report_gives_size(report: Json)
    ensures
        ({
            let streams = if report is Object && report->Object_0.contains_key("streams"@) {
                report->Object_0["streams"@]
            } else {
                Json::Null
            };
            let there = streams is List && streams->List_0.len() > 0;
            let first = streams->List_0[0];
            let wide = first is Object && first->Object_0.contains_key("width"@)
                && first->Object_0["width"@] is Unsigned;
            let high = first is Object && first->Object_0.contains_key("height"@)
                && first->Object_0["height"@] is Unsigned;
            let dims = dimensions(stream_size(report));
            &&& !there ==> dims == Err::<(u32, u32), ProbeError>(ProbeError::NoVideoStream)
            &&& there && !wide ==> dims == Err::<(u32, u32), ProbeError>(ProbeError::NoWidth)
            &&& there && wide && !high ==> dims == Err::<(u32, u32), ProbeError>(
                ProbeError::NoHeight,
            )
            &&& there && wide && high ==> {
                let w = first->Object_0["width"@]->Unsigned_0;
                let h = first->Object_0["height"@]->Unsigned_0;
                &&& dims is Ok
                &&& w <= u32::MAX ==> dims->Ok_0.0 == w
                &&& h <= u32::MAX ==> dims->Ok_0.1 == h
                &&& (w - dims->Ok_0.0) % 0x1_0000_0000 == 0
                &&& (h - dims->Ok_0.1) % 0x1_0000_0000 == 0
            }
        }),
{
}

/// The errors, word by word.
pub proof fn law_probe_errors_say_why(message: String)
    ensures
        ProbeError::Json(message).text() == message@,
        ProbeError::NoVideoStream.text() == "No video stream found"@,
        ProbeError::NoWidth.text() == "Could not read width"@,
        ProbeError::NoHeight.text() == "Could not read height"@,
{
}

} // verus!
