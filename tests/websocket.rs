use signal_engine::websocket::{
    classify_request, next_reconnect_delay, parse_provisioning_message, WebSocketEnvelope,
};
use signal_engine::{
    IncomingMessage, ProvisioningMessage, SignalEndpoints, SignalError, WebSocketCredentials,
    WebSocketRequest, WebSocketResponse,
};

#[test]
fn test_credentials_basic_auth() {
    let creds = WebSocketCredentials::new("user", "pass");
    let auth = creds.basic_auth();
    assert!(auth.starts_with("Basic "));
}

#[test]
fn test_request_serialization() {
    let request = WebSocketRequest::new("PUT", "/api/v1/message")
        .with_body(b"test body".to_vec())
        .with_header("Content-Type", "application/octet-stream");
    let serialized = request.serialize();
    assert!(!serialized.is_empty());
    assert_eq!(serialized[0], 1);
}

#[test]
fn test_response_serialization() {
    let response = WebSocketResponse {
        id: 42,
        status: 200,
        message: Some("OK".to_string()),
        body: Some(b"response body".to_vec()),
        headers: vec![],
    };
    let serialized = response.serialize();
    assert!(!serialized.is_empty());
    assert_eq!(serialized[0], 2);
}

#[test]
fn basic_auth_value() {
    let creds = WebSocketCredentials::new("user", "pass");
    assert_eq!(creds.basic_auth(), "Basic dXNlcjpwYXNz");
    let device = WebSocketCredentials::from_device("abc-123", 7, "pw");
    assert_eq!(device.username, "abc-123.7");
    assert_eq!(device.password, "pw");
}

#[test]
fn endpoint_urls() {
    assert_eq!(SignalEndpoints::provisioning_url(), "wss://chat.signal.org/v1/websocket/provisioning/");
    assert_eq!(
        SignalEndpoints::websocket_url("a b", "p&w"),
        "wss://chat.signal.org/v1/websocket/?login=a%20b&password=p%26w"
    );
    assert_eq!(SignalEndpoints::SERVICE, "wss://chat.signal.org");
    assert_eq!(SignalEndpoints::STORAGE, "wss://storage.signal.org");
}

#[test]
fn request_layout_and_round_trip() {
    let mut request = WebSocketRequest::new("PUT", "/p")
        .with_body(vec![9, 9])
        .with_header("K", "V");
    request.id = 0x0102;
    let data = request.serialize();
    let expected: Vec<u8> = vec![
        1, 0, 0, 0, 0, 0, 0, 1, 2, 0, 3, b'P', b'U', b'T', 0, 2, b'/', b'p', 0, 0, 0, 2, 9, 9, 0, 1,
        0, 1, b'K', 0, 1, b'V',
    ];
    assert_eq!(data, expected);
    let parsed = WebSocketRequest::parse(&data[1..]).unwrap();
    assert_eq!(parsed.id, 0x0102);
    assert_eq!(parsed.verb, "PUT");
    assert_eq!(parsed.path, "/p");
    assert_eq!(parsed.body, Some(vec![9, 9]));
    assert!(parsed.headers.is_empty());
    let no_body = WebSocketRequest::new("GET", "/").serialize();
    assert_eq!(WebSocketRequest::parse(&no_body[1..]).unwrap().body, None);
    assert_eq!(WebSocketRequest::parse(&data[1..20]).err(), Some(SignalError::MalformedMessage));
    assert_eq!(WebSocketRequest::parse(&[0u8; 5]).err(), Some(SignalError::MalformedMessage));
}

#[test]
fn response_layout_and_parse() {
    let response = WebSocketResponse { id: 1, status: 404, message: None, body: None, headers: vec![] };
    let data = response.serialize();
    assert_eq!(data, vec![2, 0, 0, 0, 0, 0, 0, 0, 1, 1, 148, 0, 0, 0, 0, 0, 0]);
    let parsed = WebSocketResponse::parse(&data[1..]).unwrap();
    assert_eq!(parsed.id, 1);
    assert_eq!(parsed.status, 404);
    assert_eq!(parsed.message, None);
    assert_eq!(parsed.body, None);
    let full = WebSocketResponse {
        id: 42,
        status: 200,
        message: Some("OK".to_string()),
        body: Some(b"response body".to_vec()),
        headers: vec![],
    }
    .serialize();
    let parsed = WebSocketResponse::parse(&full[1..]).unwrap();
    assert_eq!(parsed.message.as_deref(), Some("OK"));
    assert_eq!(parsed.body.as_deref(), Some(b"response body".as_slice()));
    assert_eq!(WebSocketResponse::parse(&full[1..15]).unwrap().body, None);
    assert_eq!(WebSocketResponse::parse(&full[1..20]).unwrap().body, None);
    assert_eq!(WebSocketResponse::parse(&full[1..14]).err(), Some(SignalError::MalformedMessage));
    assert_eq!(WebSocketResponse::parse(&full[1..12]).err(), Some(SignalError::MalformedMessage));
}

#[test]
fn envelopes_and_classification() {
    let request = WebSocketRequest::new("PUT", "/api/v1/message").with_body(vec![1, 2, 3]).serialize();
    match WebSocketEnvelope::parse(&request).unwrap() {
        WebSocketEnvelope::Request(r) => match classify_request(r) {
            Some(IncomingMessage::Envelope(body)) => assert_eq!(body, vec![1, 2, 3]),
            _ => panic!("expected an envelope"),
        },
        WebSocketEnvelope::Response(_) => panic!("expected a request"),
    }
    let empty = WebSocketRequest::new("PUT", "/api/v1/queue/empty").serialize();
    match WebSocketEnvelope::parse(&empty).unwrap() {
        WebSocketEnvelope::Request(r) => assert!(matches!(classify_request(r), Some(IncomingMessage::QueueEmpty))),
        WebSocketEnvelope::Response(_) => panic!("expected a request"),
    }
    let other = WebSocketRequest::parse(&WebSocketRequest::new("GET", "/x").serialize()[1..]).unwrap();
    assert!(classify_request(other).is_none());
    let response = WebSocketResponse { id: 5, status: 200, message: None, body: None, headers: vec![] }.serialize();
    assert!(matches!(WebSocketEnvelope::parse(&response).unwrap(), WebSocketEnvelope::Response(r) if r.id == 5));
    assert!(matches!(WebSocketEnvelope::parse(&[]), Err(SignalError::MalformedMessage)));
    assert!(matches!(WebSocketEnvelope::parse(&[3, 0]), Err(SignalError::MalformedMessage)));
}

#[test]
fn provisioning_messages() {
    match parse_provisioning_message(b"\x01abc").unwrap() {
        ProvisioningMessage::Uuid(s) => assert_eq!(s, "abc"),
        _ => panic!("expected a uuid"),
    }
    match parse_provisioning_message(&[2, 7, 8]).unwrap() {
        ProvisioningMessage::Envelope(b) => assert_eq!(b, vec![7, 8]),
        _ => panic!("expected an envelope"),
    }
    assert!(parse_provisioning_message(&[]).is_err());
    assert!(parse_provisioning_message(&[1, 0xff]).is_err());
    assert!(parse_provisioning_message(&[9]).is_err());
}

#[test]
fn reconnect_backoff() {
    assert_eq!(next_reconnect_delay(1), 2);
    assert_eq!(next_reconnect_delay(30), 60);
    assert_eq!(next_reconnect_delay(31), 60);
    assert_eq!(next_reconnect_delay(u64::MAX), 60);
}
