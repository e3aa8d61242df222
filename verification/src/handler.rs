//! The request handler: extract a JSON payload of the form
//! `{"name": "<text>"}` from an HTTP request body, build the greeting
//! `"Goodnight, <text>!"`, and serialize it as `{"message": "..."}` in an
//! HTTP 200 response. A missing body and an undecodable body are the two
//! invocation failures.

use vstd::prelude::*;
use vstd::string::StringExecFns;

use crate::json::{
    lemma_object_round_trip, parse_object_chars, parse_object_spec, serialize_object,
    serialize_object_spec,
};
use crate::text::{chars_of_str, string_of_chars};

verus! {

/// The inbound payload: one field, `name`.
#[derive(Debug)]
pub struct FuncRequest {
    pub name: String,
}

/// The outbound payload: one field, `message`.
#[derive(Debug)]
pub struct FuncResponse {
    pub message: String,
}

/// Why an invocation failed.
#[derive(Clone, Copy, Debug, PartialEq, Eq, Structural)]
pub enum HandlerError {
    /// The body was present but was not valid JSON of the expected shape.
    PayloadDeserializationError,
    /// The request carried no body at all.
    PayloadMissingError,
}

/// The HTTP response the handler produces: a status code and a body.
#[derive(Debug)]
pub struct HttpResponse {
    pub status: u16,
    pub body: String,
}

/// The member name of the request object.
pub open spec fn key_name() -> Seq<char> {
    seq!['n', 'a', 'm', 'e']
}

/// The member name of the response object.
pub open spec fn key_message() -> Seq<char> {
    seq!['m', 'e', 's', 's', 'a', 'g', 'e']
}

/// The message derived from a request name.
pub open spec fn greeting_of(name: Seq<char>) -> Seq<char> {
    "Goodnight, "@ + name + "!"@
}

/// The serialized response body carrying the given message.
pub open spec fn serialize_response_spec(message: Seq<char>) -> Seq<char> {
    serialize_object_spec(key_message(), message)
}

/// What one invocation observably produces, as a function of the body
/// alone: either a status code with a response body, or an error.
pub open spec fn handle_model(body: Option<Seq<char>>) -> Result<(int, Seq<char>), HandlerError> {
    match body {
        None => Err(HandlerError::PayloadMissingError),
        Some(b) => match parse_object_spec(b, key_name()) {
            Some(name) => Ok((200, serialize_response_spec(greeting_of(name)))),
            None => Err(HandlerError::PayloadDeserializationError),
        },
    }
}

/// The observable part of a handler result: the status and the body text.
pub open spec fn response_model(r: Result<HttpResponse, HandlerError>) -> Result<
    (int, Seq<char>),
    HandlerError,
> {
    match r {
        Ok(resp) => Ok((resp.status as int, resp.body@)),
        Err(e) => Err(e),
    }
}

/// The body as a sequence of characters, when there is one.
pub open spec fn body_view(body: Option<&str>) -> Option<Seq<char>> {
    match body {
        Some(b) => Some(b@),
        None => None,
    }
}

impl HandlerError {
    /// A short description of the failure, as the handler reports it.
    pub fn text(&self) -> (r: &'static str)
        ensures
            *self == HandlerError::PayloadMissingError ==> r@ == "Payload is None"@,
            *self == HandlerError::PayloadDeserializationError ==> r@
                == "Payload deserialization failed"@,
    {
        match self {
            HandlerError::PayloadMissingError => "Payload is None",
            HandlerError::PayloadDeserializationError => "Payload deserialization failed",
        }
    }
}

/// Decode a request body: accepted exactly when it is a JSON object in
/// which the member `name` occurs once and holds a string; any other
/// members must be valid JSON and are ignored.
pub fn parse_request(body: &str) -> (r: Option<FuncRequest>)
    ensures
        match r {
            Some(req) => parse_object_spec(body@, key_name()) == Some(req.name@),
            None => parse_object_spec(body@, key_name()) is None,
        },
{
    let chars = chars_of_str(body);
    let mut key: Vec<char> = Vec::new();
    key.push('n');
    key.push('a');
    key.push('m');
    key.push('e');
    proof {
        assert(key@ =~= key_name());
    }
    match parse_object_chars(&chars, &key) {
        None => None,
        Some(val) => Some(FuncRequest { name: string_of_chars(&val) }),
    }
}

/// Decode a response body: accepted exactly when it is a JSON object in
/// which the member `message` occurs once and holds a string; any other
/// members must be valid JSON and are ignored.
pub fn parse_response(body: &str) -> (r: Option<FuncResponse>)
    ensures
        match r {
            Some(resp) => parse_object_spec(body@, key_message()) == Some(resp.message@),
            None => parse_object_spec(body@, key_message()) is None,
        },
{
    let chars = chars_of_str(body);
    let mut key: Vec<char> = Vec::new();
    key.push('m');
    key.push('e');
    key.push('s');
    key.push('s');
    key.push('a');
    key.push('g');
    key.push('e');
    proof {
        assert(key@ =~= key_message());
    }
    match parse_object_chars(&chars, &key) {
        None => None,
        Some(val) => Some(FuncResponse { message: string_of_chars(&val) }),
    }
}

/// Build the response entity for a request: the greeting around its name,
/// verbatim, with no escaping or truncation.
pub fn build_response(req: &FuncRequest) -> (resp: FuncResponse)
    ensures
        resp.message@ == greeting_of(req.name@),
{
    let prefix = String::from_str("Goodnight, ");
    let with_name = prefix.concat(req.name.as_str());
    let message = with_name.concat("!");
    proof {
        assert(message@ =~= greeting_of(req.name@));
    }
    FuncResponse { message }
}

/// Serialize a response entity to its JSON body.
pub fn serialize_response(resp: &FuncResponse) -> (out: String)
    ensures
        out@ == serialize_response_spec(resp.message@),
{
    let mut key: Vec<char> = Vec::new();
    key.push('m');
    key.push('e');
    key.push('s');
    key.push('s');
    key.push('a');
    key.push('g');
    key.push('e');
    proof {
        assert(key@ =~= key_message());
    }
    let val = chars_of_str(resp.message.as_str());
    serialize_object(&key, &val)
}

/// One invocation: decode the body, build the greeting, serialize the
/// response. A missing body fails with [`HandlerError::PayloadMissingError`];
/// a body that is not a JSON object carrying a string member `name` fails
/// with [`HandlerError::PayloadDeserializationError`]; every other body —
/// members besides `name` are ignored — yields status 200 and the
/// serialized greeting, exactly.
pub fn handle(body: Option<&str>) -> (r: Result<HttpResponse, HandlerError>)
    ensures
        response_model(r) == handle_model(body_view(body)),
        body is None ==> r == Err::<HttpResponse, HandlerError>(HandlerError::PayloadMissingError),
        (body matches Some(b) && parse_object_spec(b@, key_name()) is None) ==> r == Err::<
            HttpResponse,
            HandlerError,
        >(HandlerError::PayloadDeserializationError),
        body matches Some(b) ==> parse_object_spec(b@, key_name()) matches Some(name) ==> (
        r matches Ok(resp) && resp.status == 200 && resp.body@ == serialize_response_spec(
            greeting_of(name),
        )),
{
    match body {
        None => Err(HandlerError::PayloadMissingError),
        Some(b) => match parse_request(b) {
            None => Err(HandlerError::PayloadDeserializationError),
            Some(req) => {
                let resp = build_response(&req);
                let out = serialize_response(&resp);
                Ok(HttpResponse { status: 200, body: out })
            },
        },
    }
}

/// Law: serializing a response and parsing it back yields the identical
/// message, whatever characters it holds.
pub proof fn lemma_response_round_trip(message: Seq<char>)
    ensures
        parse_object_spec(serialize_response_spec(message), key_message()) == Some(message),
{
    lemma_object_round_trip(key_message(), message);
}

/// Law: the handler is deterministic. Its contract admits exactly one
/// observable outcome per body, so two invocations on the same input
/// produce the identical status, body and error.
pub proof fn lemma_handle_deterministic(
    body: Option<Seq<char>>,
    r1: Result<(int, Seq<char>), HandlerError>,
    r2: Result<(int, Seq<char>), HandlerError>,
)
    requires
        r1 == handle_model(body),
        r2 == handle_model(body),
    ensures
        r1 == r2,
{
}

} // verus!
