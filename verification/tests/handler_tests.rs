use func::handler::{
    build_response, handle, parse_request, parse_response, serialize_response, FuncRequest,
    FuncResponse, HandlerError,
};

/// The headline scenario: the body `{"name": "Taki"}` yields status 200
/// and a response whose `message` member is `Goodnight, Taki!`.
#[test]
fn test_func() {
    let req_text = "{\"name\": \"Taki\"}";

    let res = handle(Some(req_text)).expect("invocation should succeed");

    let parsed: serde_json::Value =
        serde_json::from_str(&res.body).expect("Response shape is wrong");
    let message = parsed
        .get("message")
        .and_then(|m| m.as_str())
        .expect("Response shape is wrong");

    assert_eq!(res.status, 200);
    assert_eq!(message, "Goodnight, Taki!");
}

fn serde_body_for(name: &str) -> String {
    let mut obj = serde_json::Map::new();
    obj.insert(
        String::from("name"),
        serde_json::Value::String(String::from(name)),
    );
    serde_json::Value::Object(obj).to_string()
}

fn check_greets(name: &str) {
    let body = serde_body_for(name);
    let res = handle(Some(body.as_str())).expect("invocation should succeed");
    assert_eq!(res.status, 200);

    // The response must be understood both by this library's parser and by
    // an independent JSON implementation.
    let own = parse_response(&res.body).expect("own parser rejected the response");
    let expected = format!("Goodnight, {}!", name);
    assert_eq!(own.message, expected);

    let parsed: serde_json::Value =
        serde_json::from_str(&res.body).expect("response is not valid JSON");
    assert_eq!(
        parsed.get("message").and_then(|m| m.as_str()),
        Some(expected.as_str())
    );
}

#[test]
fn greets_plain_names() {
    check_greets("Taki");
    check_greets("Mitsuha");
    check_greets("name with spaces");
}

#[test]
fn greets_empty_name() {
    check_greets("");
}

#[test]
fn greets_names_with_special_characters() {
    check_greets("quote \" backslash \\ slash /");
    check_greets("line\nbreak\ttab\rreturn");
    check_greets("control \u{01} \u{1f} chars");
    check_greets("unicode: \u{e9}\u{1F319} 星");
    check_greets("{\"name\": \"nested json\"}");
}

/// The serializer must agree byte for byte with an independent JSON
/// implementation, escapes included.
#[test]
fn serializer_matches_reference_bytes() {
    for message in [
        "Goodnight, Taki!",
        "",
        "quote \" backslash \\",
        "\u{08}\u{0c}\n\r\t",
        "control \u{01}\u{1f}",
        "caf\u{e9} \u{1F319}",
    ] {
        let out = serialize_response(&FuncResponse {
            message: String::from(message),
        });
        let mut obj = serde_json::Map::new();
        obj.insert(
            String::from("message"),
            serde_json::Value::String(String::from(message)),
        );
        let reference = serde_json::Value::Object(obj).to_string();
        assert_eq!(out, reference);
    }
}

/// Round trip: serializing a response and parsing it back yields the
/// identical message.
#[test]
fn response_round_trips() {
    for message in [
        "Goodnight, Taki!",
        "",
        "with \"escapes\" and \\ and \u{07} control",
        "surrogate pair material: \u{10348} \u{1F600}",
    ] {
        let out = serialize_response(&FuncResponse {
            message: String::from(message),
        });
        let back = parse_response(&out).expect("serialized response must parse");
        assert_eq!(back.message, message);
    }
}

/// Missing body: the invocation fails with the payload-missing error.
#[test]
fn missing_body_fails() {
    let res = handle(None);
    assert_eq!(res.unwrap_err(), HandlerError::PayloadMissingError);
}

/// A body that is not JSON, or is JSON without the `name` member, fails
/// with the deserialization error.
#[test]
fn malformed_body_fails() {
    for body in [
        "",
        "not json at all",
        "{}",
        "{\"other\": \"x\"}",
        "{\"name\": 5}",
        "{\"name\": null}",
        "{\"name\": \"unterminated}",
        "{\"name\": \"bad escape \\q\"}",
        "{\"name\": \"lone surrogate \\ud800\"}",
        "[\"name\"]",
        "\"name\"",
        "{\"name\": \"x\"} trailing",
    ] {
        let res = handle(Some(body));
        assert_eq!(
            res.unwrap_err(),
            HandlerError::PayloadDeserializationError,
            "body {:?} should be rejected",
            body
        );
    }
}

/// Whitespace around the punctuation is accepted, as JSON allows.
#[test]
fn whitespace_is_insignificant() {
    let res = handle(Some("  {\n\t\"name\" :\r \"Taki\"  }\n")).expect("should succeed");
    let own = parse_response(&res.body).expect("own parser rejected the response");
    assert_eq!(own.message, "Goodnight, Taki!");
}

/// Escapes in the request are decoded as JSON demands, surrogate pairs
/// included, in agreement with an independent JSON implementation.
#[test]
fn request_escapes_are_decoded() {
    let body = "{\"name\": \"\\u0054aki \\n \\\"q\\\" \\ud83d\\ude00 \\u00e9\"}";
    let req = parse_request(body).expect("body must parse");

    let reference: serde_json::Value = serde_json::from_str(body).expect("reference parse");
    let expected = reference.get("name").and_then(|n| n.as_str()).unwrap();
    assert_eq!(req.name, expected);
    assert_eq!(req.name, "Taki \n \"q\" \u{1F600} \u{e9}");
}

/// Invoking the handler twice with the same input produces byte-identical
/// output.
#[test]
fn handler_is_idempotent() {
    let body = "{\"name\": \"Taki\"}";
    let first = handle(Some(body)).expect("should succeed");
    let second = handle(Some(body)).expect("should succeed");
    assert_eq!(first.status, second.status);
    assert_eq!(first.body.as_bytes(), second.body.as_bytes());

    let e1 = handle(Some("{}")).unwrap_err();
    let e2 = handle(Some("{}")).unwrap_err();
    assert_eq!(e1, e2);
}

/// The greeting is built verbatim around the name.
#[test]
fn builds_greeting() {
    let resp = build_response(&FuncRequest {
        name: String::from("Taki"),
    });
    assert_eq!(resp.message, "Goodnight, Taki!");
}

/// Each failure carries its fixed description.
#[test]
fn error_text() {
    assert_eq!(HandlerError::PayloadMissingError.text(), "Payload is None");
    assert_eq!(
        HandlerError::PayloadDeserializationError.text(),
        "Payload deserialization failed"
    );
}

/// Members besides `name` are ignored, whatever JSON their values hold,
/// as long as it is valid.
#[test]
fn extra_members_are_ignored() {
    let res = handle(Some("{\"name\":\"x\",\"y\":\"z\"}")).expect("should succeed");
    assert_eq!(res.status, 200);
    let own = parse_response(&res.body).expect("own parser rejected the response");
    assert_eq!(own.message, "Goodnight, x!");

    for body in [
        "{\"y\": \"z\", \"name\": \"x\"}",
        "{\"a\": -1.5e+10, \"b\": true, \"c\": false, \"d\": null, \"name\": \"x\"}",
        "{\"deep\": {\"list\": [1, 2, {\"inner\": null}], \"s\": \"v\"}, \"name\": \"x\"}",
        "{\"y\": 1, \"y\": 2, \"name\": \"x\"}",
        "{\"empty\": {}, \"none\": [], \"name\": \"x\"}",
    ] {
        let res = handle(Some(body)).expect("extra members should be ignored");
        let own = parse_response(&res.body).expect("own parser rejected the response");
        assert_eq!(own.message, "Goodnight, x!", "body {:?}", body);
        // An independent JSON implementation reads the same name.
        let reference: serde_json::Value = serde_json::from_str(body).expect("reference parse");
        assert_eq!(reference.get("name").and_then(|n| n.as_str()), Some("x"));
    }
}

/// A duplicated `name` member, or one that is not a string, is rejected,
/// as is an extra member whose value is not valid JSON.
#[test]
fn bad_members_are_rejected() {
    // Valid JSON, but not the accepted shape: a duplicated or non-string
    // `name` member.
    for body in [
        "{\"name\": \"x\", \"name\": \"y\"}",
        "{\"name\": \"x\", \"name\": 5}",
        "{\"y\": \"z\", \"name\": 5}",
    ] {
        let res = handle(Some(body));
        assert_eq!(
            res.unwrap_err(),
            HandlerError::PayloadDeserializationError,
            "body {:?} should be rejected",
            body
        );
    }
    // Not valid JSON at all; an independent implementation rejects these
    // bodies too.
    for body in [
        "{\"y\": [1,,2], \"name\": \"x\"}",
        "{\"y\": 01, \"name\": \"x\"}",
        "{\"y\": truth, \"name\": \"x\"}",
        "{\"y\": \"z\" \"name\": \"x\"}",
        "{\"y\": {\"open\": 1, \"name\": \"x\"}",
        "{\"name\": \"x\",}",
    ] {
        let res = handle(Some(body));
        assert_eq!(
            res.unwrap_err(),
            HandlerError::PayloadDeserializationError,
            "body {:?} should be rejected",
            body
        );
        assert!(
            serde_json::from_str::<serde_json::Value>(body).is_err(),
            "reference should also reject {:?}",
            body
        );
    }
}

/// Ignored member values may nest, but only to a fixed depth.
#[test]
fn nesting_depth_is_bounded() {
    let shallow = format!(
        "{{\"pad\": {}{}, \"name\": \"x\"}}",
        "[".repeat(10),
        "]".repeat(10)
    );
    let res = handle(Some(shallow.as_str())).expect("shallow nesting should be accepted");
    let own = parse_response(&res.body).expect("own parser rejected the response");
    assert_eq!(own.message, "Goodnight, x!");

    let deep = format!(
        "{{\"pad\": {}{}, \"name\": \"x\"}}",
        "[".repeat(300),
        "]".repeat(300)
    );
    let res = handle(Some(deep.as_str()));
    assert_eq!(res.unwrap_err(), HandlerError::PayloadDeserializationError);
    // An independent JSON implementation bounds nesting the same way.
    assert!(serde_json::from_str::<serde_json::Value>(deep.as_str()).is_err());
}
