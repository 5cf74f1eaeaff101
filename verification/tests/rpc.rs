use ovs_unixctl::codec;
use ovs_unixctl::error::Error;
use ovs_unixctl::jsonrpc::{correlate, Client, Response};
use ovs_unixctl::loopback::ScriptTransport;

fn client_with(replies: Vec<&str>) -> Client<ScriptTransport> {
    let owned: Vec<String> = replies.into_iter().map(|s| s.to_string()).collect();
    Client::new(ScriptTransport::new(owned))
}

#[test]
fn call_ping_pong() {
    // A transport that echoes a result for request id 1.
    let mut client = client_with(vec![r#"{"result":"pong","error":null,"id":1}"#]);
    let resp = client.call("ping").unwrap();
    assert_eq!(resp.result.as_deref(), Some("pong"));
    assert!(resp.error.is_none());
    assert_eq!(resp.id, Some(1));
}

#[test]
fn request_ids_strictly_increasing() {
    let mut client = client_with(vec![
        r#"{"result":"a","error":null,"id":1}"#,
        r#"{"result":"b","error":null,"id":2}"#,
        r#"{"result":"c","error":null,"id":3}"#,
    ]);
    let r1 = client.call("one").unwrap();
    let r2 = client.call("two").unwrap();
    let r3 = client.call("three").unwrap();
    let ids = [r1.id.unwrap(), r2.id.unwrap(), r3.id.unwrap()];
    assert_eq!(ids, [1, 2, 3]);
    assert!(ids[0] < ids[1] && ids[1] < ids[2]);
}

#[test]
fn sent_documents_are_canonical() {
    let mut client = client_with(vec![r#"{"result":"ok","error":null,"id":1}"#]);
    client.call("ping").unwrap();
    let encoded = codec::encode_request("ping", &Vec::new(), 1);
    assert_eq!(encoded, r#"{"method":"ping","params":[],"id":1}"#);
}

#[test]
fn id_mismatch_is_protocol_error() {
    // The reply carries id 99 while the outstanding request has id 1.
    let mut client = client_with(vec![r#"{"result":"x","error":null,"id":99}"#]);
    let err = client.call("ping").unwrap_err();
    assert!(matches!(err, Error::Protocol(_)));
}

#[test]
fn missing_id_is_protocol_error() {
    let mut client = client_with(vec![r#"{"result":"x","error":null,"id":null}"#]);
    let err = client.call("ping").unwrap_err();
    assert!(matches!(err, Error::Protocol(_)));
}

#[test]
fn correlate_accepts_only_the_awaited_id() {
    let ok = correlate(
        7,
        Response { result: Some("r".to_string()), error: None, id: Some(7) },
    );
    assert!(ok.is_ok());
    let wrong = correlate(
        7,
        Response { result: Some("r".to_string()), error: None, id: Some(8) },
    );
    assert!(matches!(wrong.unwrap_err(), Error::Protocol(_)));
    let absent = correlate(
        7,
        Response { result: Some("r".to_string()), error: None, id: None },
    );
    assert!(matches!(absent.unwrap_err(), Error::Protocol(_)));
}

#[test]
fn daemon_error_becomes_command_error() {
    let mut client = client_with(vec![r#"{"result":null,"error":"boom","id":1}"#]);
    let params: Vec<String> = vec!["a".to_string(), "b".to_string()];
    let err = client.call_params("do-thing", params).unwrap_err();
    match err {
        Error::Command { cmd, params, error } => {
            assert_eq!(cmd, "do-thing");
            assert_eq!(params, "a, b");
            assert_eq!(error, "boom");
        }
        other => panic!("expected a command error, got {:?}", other),
    }
}

#[test]
fn exhausted_transport_is_socket_error() {
    let mut client = client_with(vec![]);
    let err = client.call("ping").unwrap_err();
    assert!(matches!(err, Error::Socket(_)));
}

#[test]
fn control_characters_are_escaped_on_the_wire() {
    let params: Vec<String> = vec!["a\u{1}b".to_string()];
    let encoded = codec::encode_request("m", &params, 1);
    assert_eq!(encoded, r#"{"method":"m","params":["a\u0001b"],"id":1}"#);
    let (_, decoded, _) = codec::parse_request(encoded.as_str()).unwrap();
    assert_eq!(decoded, params);
}

#[test]
fn request_round_trip() {
    let params: Vec<String> = vec!["a b".to_string(), "c\"d\\e".to_string(), "f\tg\nh".to_string()];
    let encoded = codec::encode_request("do/thing \"x\"", &params, 42);
    let (method, decoded_params, id) = codec::parse_request(encoded.as_str()).unwrap();
    assert_eq!(method, "do/thing \"x\"");
    assert_eq!(decoded_params, params);
    assert_eq!(id, 42);
}

#[test]
fn request_round_trip_empty_params() {
    let encoded = codec::encode_request("version", &Vec::new(), 1);
    let (method, decoded_params, id) = codec::parse_request(encoded.as_str()).unwrap();
    assert_eq!(method, "version");
    assert!(decoded_params.is_empty());
    assert_eq!(id, 1);
}

#[test]
fn request_round_trip_largest_id() {
    let encoded = codec::encode_request("m", &Vec::new(), usize::MAX);
    let (_, _, id) = codec::parse_request(encoded.as_str()).unwrap();
    assert_eq!(id, usize::MAX);
}

#[test]
fn parse_request_rejects_malformed_text() {
    assert!(matches!(
        codec::parse_request("not json").unwrap_err(),
        Error::Serialize(_)
    ));
    assert!(matches!(
        codec::parse_request(r#"{"method":"m","params":[],"id":1} "#).unwrap_err(),
        Error::Serialize(_)
    ));
}

#[test]
fn parse_response_accepts_whitespace_and_any_key_order() {
    let (result, error, id) =
        codec::parse_response(" { \"id\" : 3 , \"error\" : null , \"result\" : \"ok\" } ")
            .unwrap();
    assert_eq!(result.as_deref(), Some("ok"));
    assert!(error.is_none());
    assert_eq!(id, Some(3));
}

#[test]
fn parse_response_treats_absent_members_as_null() {
    let (result, error, id) = codec::parse_response("{}").unwrap();
    assert!(result.is_none());
    assert!(error.is_none());
    assert!(id.is_none());
    let (result, error, id) = codec::parse_response(r#"{"id":5}"#).unwrap();
    assert!(result.is_none());
    assert!(error.is_none());
    assert_eq!(id, Some(5));
}

#[test]
fn parse_response_decodes_escapes() {
    let (result, _, _) =
        codec::parse_response(r#"{"result":"line\nbreak A\" \\","id":1}"#).unwrap();
    assert_eq!(result.as_deref(), Some("line\nbreak A\" \\"));
    let (result, _, _) = codec::parse_response(r#"{"result":"tab\u0009end","id":2}"#).unwrap();
    assert_eq!(result.as_deref(), Some("tab\tend"));
    let (result, _, _) = codec::parse_response(r#"{"result":"\u0100 \u20ac","id":3}"#).unwrap();
    assert_eq!(result.as_deref(), Some("\u{100} \u{20ac}"));
    let err = codec::parse_response(r#"{"result":"\ud800","id":1}"#).unwrap_err();
    assert!(matches!(err, Error::Serialize(_)));
}

#[test]
fn parse_response_ignores_unknown_scalar_members() {
    let (result, error, id) =
        codec::parse_response(r#"{"result":"x","id":1,"extra":2}"#).unwrap();
    assert_eq!(result.as_deref(), Some("x"));
    assert!(error.is_none());
    assert_eq!(id, Some(1));
    let (_, _, id) =
        codec::parse_response(r#"{"a":true,"b":null,"c":-1.5e3,"b":false,"id":7,"d":"s"}"#)
            .unwrap();
    assert_eq!(id, Some(7));
}

#[test]
fn parse_response_rejects_malformed_documents() {
    for text in [
        "",
        "null",
        r#"{"result":"a""#,
        r#"{"result":"a","result":"b","id":1}"#,
        r#"{"unknown":,"id":1}"#,
        r#"{"unknown":{"a":1},"id":1}"#,
        r#"{"id":18446744073709551616}"#,
        r#"{"id":1} trailing"#,
        r#"{"id":1,}"#,
    ] {
        let err = codec::parse_response(text).unwrap_err();
        assert!(matches!(err, Error::Serialize(_)), "accepted: {}", text);
    }
}

#[test]
fn error_kinds_classify() {
    assert!(Error::Timeout.is_transport());
    assert!(Error::Socket("gone".to_string()).is_transport());
    assert!(Error::Protocol("bad".to_string()).is_protocol());
    assert!(!Error::Timeout.is_protocol());
    let cmd = Error::Command {
        cmd: "c".to_string(),
        params: "".to_string(),
        error: "e".to_string(),
    };
    assert!(cmd.is_command());
    assert!(!cmd.is_transport());
}
