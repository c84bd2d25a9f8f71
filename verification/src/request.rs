//! The request that opens a stream of messages.

use vstd::prelude::*;

verus! {

/// Where messages are requested.
pub const API_URL: &'static str = "https://api.anthropic.com/v1/messages";

/// The version of the interface that is asked for.
pub const API_VERSION: &'static str = "2023-06-01";

/// A message of a conversation.
#[derive(Debug)]
pub struct Message {
    /// Who says it.
    pub role: String,
    /// What is said.
    pub content: String,
}

/// A request without its body.
#[derive(Debug)]
pub struct RequestHead {
    pub method: String,
    pub uri: String,
    /// The headers, each with its name and its value.
    pub headers: Vec<(String, String)>,
}

/// The characters of a header.
pub open spec fn header_view(header: (String, String)) -> (Seq<char>, Seq<char>) {
    (header.0@, header.1@)
}

/// Makes a header.
fn header(name: &str, value: &str) -> (header: (String, String))
    ensures
        header_view(header) == (name@, value@),
{
    (name.to_string(), value.to_string())
}

/// The head of a request for a stream of messages, with the key that authorises it.
pub fn request_head(api_key: &str) -> (head: RequestHead)
    ensures
        head.method@ == "POST"@,
        head.uri@ == API_URL@,
        head.headers@.len() == 3,
        header_view(head.headers@[0]) == ("x-api-key"@, api_key@),
        header_view(head.headers@[1]) == ("anthropic-version"@, API_VERSION@),
        header_view(head.headers@[2]) == ("content-type"@, "application/json"@),
        head.uri@ == "https://api.anthropic.com/v1/messages"@,
        head.headers@[0].0@ == "x-api-key"@,
        head.headers@[0].1@ == api_key@,
        head.headers@[1].0@ == "anthropic-version"@,
        head.headers@[1].1@ == "2023-06-01"@,
        head.headers@[2].0@ == "content-type"@,
        head.headers@[2].1@ == "application/json"@,
{
    let mut headers: Vec<(String, String)> = Vec::new();
    headers.push(header("x-api-key", api_key));
    headers.push(header("anthropic-version", API_VERSION));
    headers.push(header("content-type", "application/json"));
    RequestHead { method: "POST".to_string(), uri: API_URL.to_string(), headers }
}

/// A JSON value of serde_json.
#[verifier::external_type_specification]
#[verifier::external_body]
pub struct ExJsonValue(serde_json::Value);

/// Whether a JSON value is an object.
pub uninterp spec fn is_json_object(value: serde_json::Value) -> bool;

/// The members of a JSON object: each key with the JSON text of its value.
pub uninterp spec fn object_members(value: serde_json::Value) -> Map<Seq<char>, Seq<char>>;

/// The JSON text of an object with the given members, as `serde_json::to_string` writes it.
pub uninterp spec fn object_text(members: Map<Seq<char>, Seq<char>>) -> Seq<char>;

/// The JSON text of a boolean.
pub open spec fn bool_text(flag: bool) -> Seq<char> {
    if flag {
        "true"@
    } else {
        "false"@
    }
}

/// `serde_json::Value::is_object`: whether the value is an object.
#[verifier::external_body]
fn is_object(value: &serde_json::Value) -> (object: bool)
    ensures
        object == is_json_object(*value),
{
    value.is_object()
}

/// Assignment through `serde_json`'s `IndexMut` for `Value`: in an object, the member with that
/// key, old or new, becomes the given boolean, and the other members stay.
#[verifier::external_body]
fn set_member(value: &mut serde_json::Value, key: &str, flag: bool)
    requires
        is_json_object(*old(value)),
    ensures
        is_json_object(*final(value)),
        object_members(*final(value)) == object_members(*old(value)).insert(
            key@,
            bool_text(flag),
        ),
{
    value[key] = serde_json::Value::Bool(flag);
}

/// `serde_json::to_string` on a JSON object: it succeeds, and the text depends on the members
/// alone. An object of serde_json keeps its members ordered by key, so the order in which they
/// were set leaves no trace; with its feature `preserve_order`, which is off here, it would.
#[verifier::external_body]
fn json_text(value: &serde_json::Value) -> (text: Result<String, serde_json::Error>)
    requires
        is_json_object(*value),
    ensures
        text matches Ok(text) && text@ == object_text(object_members(*value)),
{
    serde_json::to_string(value)
}

/// The text of a request body that asks for a stream: the given object with its member "stream"
/// set. A value that is not an object has no such body.
pub fn streaming_body(body: serde_json::Value) -> (text: Option<Result<String, serde_json::Error>>)
    ensures
        text is Some <==> is_json_object(body),
        text matches Some(text) ==> (text matches Ok(text) && text@ == object_text(
            object_members(body).insert("stream"@, bool_text(true)),
        )),
        text matches Some(text) ==> (text matches Ok(text) && text@ == object_text(
            object_members(body).insert("stream"@, "true"@),
        )),
{
    let mut body = body;
    if !is_object(&body) {
        return None;
    }
    set_member(&mut body, "stream", true);
    Some(json_text(&body))
}

} // verus!
