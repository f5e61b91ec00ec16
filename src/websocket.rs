//! Framing of the messages exchanged with the push service, and the
//! decisions taken on them. The connection itself lives outside the library.
use vstd::prelude::*;
use vstd::string::{StringExecFns, StringSliceAdditionalSpecFns};
use vstd::utf8::{decode_utf8, encode_utf8, valid_utf8};

use crate::bytes::{
    be16, be32, be64, copy_range, get_be16, get_be32, get_be64, push_be16, push_be32, push_be64,
    push_bytes, read_be16, read_be32, read_be64,
};
use crate::error::SignalError;
use crate::primitives::{base64_encode, base64_of, decimal, u32_to_decimal, url_encode, url_encoded, utf8_string};

verus! {

/// Addresses of the push service.
pub struct SignalEndpoints;

pub open spec fn service_url() -> Seq<char> {
    "wss://chat.signal.org"@
}

impl SignalEndpoints {
    pub const SERVICE: &'static str = "wss://chat.signal.org";

    pub const STORAGE: &'static str = "wss://storage.signal.org";

    /// The authenticated websocket URL, with both credentials URL-encoded.
    pub fn websocket_url(username: &str, password: &str) -> (r: String)
        ensures
            r@ == service_url() + "/v1/websocket/?login="@ + url_encoded(username@) + "&password="@
                + url_encoded(password@),
    {
        proof {
            reveal_strlit("wss://chat.signal.org");
            reveal_strlit("/v1/websocket/?login=");
            reveal_strlit("&password=");
        }
        let mut url = String::from_str("wss://chat.signal.org");
        url.append("/v1/websocket/?login=");
        let user = url_encode(username);
        url.append(user.as_str());
        url.append("&password=");
        let pass = url_encode(password);
        url.append(pass.as_str());
        url
    }

    /// The websocket URL for device provisioning.
    pub fn provisioning_url() -> (r: String)
        ensures
            r@ == service_url() + "/v1/websocket/provisioning/"@,
    {
        proof {
            reveal_strlit("wss://chat.signal.org");
            reveal_strlit("/v1/websocket/provisioning/");
        }
        let mut url = String::from_str("wss://chat.signal.org");
        url.append("/v1/websocket/provisioning/");
        url
    }
}

/// Credentials for the push service.
pub struct WebSocketCredentials {
    pub username: String,
    pub password: String,
}

impl Clone for WebSocketCredentials {
    fn clone(&self) -> (r: Self)
        ensures
            r.username@ == self.username@,
            r.password@ == self.password@,
    {
        WebSocketCredentials { username: self.username.clone(), password: self.password.clone() }
    }
}

impl WebSocketCredentials {
    pub fn new(username: &str, password: &str) -> (r: Self)
        ensures
            r.username@ == username@,
            r.password@ == password@,
    {
        WebSocketCredentials { username: username.to_owned(), password: password.to_owned() }
    }

    /// Credentials of a linked device: the user name is `uuid.device_id`.
    pub fn from_device(uuid: &str, device_id: u32, password: &str) -> (r: Self)
        ensures
            r.username@ == uuid@ + seq!['.'] + decimal(device_id as nat),
            r.password@ == password@,
    {
        proof {
            reveal_strlit(".");
        }
        let mut username = uuid.to_owned();
        username.append(".");
        let digits = u32_to_decimal(device_id);
        username.append(digits.as_str());
        WebSocketCredentials { username, password: password.to_owned() }
    }

    /// The value of a Basic authorization header: `Basic ` and the base64
    /// of `username:password`.
    pub fn basic_auth(&self) -> (r: String)
        ensures
            r@ == "Basic "@ + base64_of(encode_utf8(self.username@ + seq![':'] + self.password@)),
    {
        proof {
            reveal_strlit(":");
            reveal_strlit("Basic ");
        }
        let mut joined = self.username.clone();
        joined.append(":");
        joined.append(self.password.as_str());
        assert(joined@ =~= self.username@ + seq![':'] + self.password@);
        let joined_str = joined.as_str();
        assert(joined_str@ == joined@);
        let joined_bytes = joined_str.as_bytes();
        assert(joined_bytes@ == encode_utf8(self.username@ + seq![':'] + self.password@));
        let encoded = base64_encode(joined_bytes);
        let mut header = String::from_str("Basic ");
        header.append(encoded.as_str());
        header
    }
}

/// What the push service delivers to the application.
pub enum IncomingMessage {
    /// An encrypted envelope.
    Envelope(Vec<u8>),
    /// The queue of stored messages is empty.
    QueueEmpty,
    /// The connection ended.
    Disconnected,
}

/// A length-prefixed field.
pub open spec fn field16(b: Seq<u8>) -> Seq<u8> {
    be16(b.len() as u16) + b
}

pub open spec fn body_field(body: Option<Vec<u8>>) -> Seq<u8> {
    match body {
        Some(b) => be32(b@.len() as u32) + b@,
        None => be32(0),
    }
}

/// Wire form of a header list.
pub open spec fn headers_bytes(h: Seq<(String, String)>) -> Seq<u8>
    decreases h.len(),
{
    if h.len() == 0 {
        Seq::empty()
    } else {
        headers_bytes(h.drop_last()) + field16(encode_utf8(h.last().0@)) + field16(
            encode_utf8(h.last().1@),
        )
    }
}

/// Every length fits its field.
pub open spec fn headers_fit(h: Seq<(String, String)>) -> bool {
    &&& h.len() <= u16::MAX
    &&& forall|i: int|
        0 <= i < h.len() ==> encode_utf8((#[trigger] h[i]).0@).len() <= u16::MAX && encode_utf8(
            h[i].1@,
        ).len() <= u16::MAX
}

/// A request to or from the push service.
pub struct WebSocketRequest {
    pub id: u64,
    pub verb: String,
    pub path: String,
    pub body: Option<Vec<u8>>,
    pub headers: Vec<(String, String)>,
}

/// Wire form of a request.
pub open spec fn request_bytes(r: WebSocketRequest) -> Seq<u8> {
    seq![1u8] + be64(r.id) + field16(encode_utf8(r.verb@)) + field16(encode_utf8(r.path@))
        + body_field(r.body) + be16(r.headers@.len() as u16) + headers_bytes(r.headers@)
}

impl WebSocketRequest {
    /// The lengths of the request's fields fit the wire format.
    pub open spec fn fits(&self) -> bool {
        &&& encode_utf8(self.verb@).len() <= u16::MAX
        &&& encode_utf8(self.path@).len() <= u16::MAX
        &&& self.body matches Some(b) ==> b@.len() <= u32::MAX
        &&& headers_fit(self.headers@)
    }

    pub fn new(verb: &str, path: &str) -> (r: Self)
        ensures
            r.id == 0,
            r.verb@ == verb@,
            r.path@ == path@,
            r.body is None,
            r.headers@.len() == 0,
    {
        WebSocketRequest { id: 0, verb: verb.to_owned(), path: path.to_owned(), body: None, headers: Vec::new() }
    }

    pub fn with_body(self, body: Vec<u8>) -> (r: Self)
        ensures
            r.id == self.id,
            r.verb == self.verb,
            r.path == self.path,
            r.body == Some(body),
            r.headers == self.headers,
    {
        WebSocketRequest { body: Some(body), ..self }
    }

    pub fn with_header(self, name: &str, value: &str) -> (r: Self)
        ensures
            r.id == self.id,
            r.verb == self.verb,
            r.path == self.path,
            r.body == self.body,
            r.headers@.len() == self.headers@.len() + 1,
            r.headers@.drop_last() == self.headers@,
            r.headers@.last().0@ == name@,
            r.headers@.last().1@ == value@,
    {
        let mut headers = self.headers;
        headers.push((name.to_owned(), value.to_owned()));
        WebSocketRequest { id: self.id, verb: self.verb, path: self.path, body: self.body, headers }
    }

    pub fn serialize(&self) -> (r: Vec<u8>)
        requires
            self.fits(),
        ensures
            r@ == request_bytes(*self),
    {
        let mut data: Vec<u8> = Vec::new();
        data.push(1u8);
        push_be64(&mut data, self.id);
        let verb = self.verb.as_str().as_bytes();
        push_be16(&mut data, verb.len() as u16);
        push_bytes(&mut data, verb);
        let path = self.path.as_str().as_bytes();
        push_be16(&mut data, path.len() as u16);
        push_bytes(&mut data, path);
        let ghost before_body = data@;
        match &self.body {
            Some(body) => {
                push_be32(&mut data, body.len() as u32);
                push_bytes(&mut data, body.as_slice());
            },
            None => {
                push_be32(&mut data, 0u32);
            },
        }
        assert(data@ =~= before_body + body_field(self.body));
        push_be16(&mut data, self.headers.len() as u16);
        let ghost head = data@;
        let mut i: usize = 0;
        while i < self.headers.len()
            invariant
                i <= self.headers@.len(),
                headers_fit(self.headers@),
                data@ == head + headers_bytes(self.headers@.subrange(0, i as int)),
            decreases self.headers@.len() - i,
        {
            let name = self.headers[i].0.as_str().as_bytes();
            let value = self.headers[i].1.as_str().as_bytes();
            assert(encode_utf8(self.headers@[i as int].0@).len() <= u16::MAX);
            push_be16(&mut data, name.len() as u16);
            push_bytes(&mut data, name);
            push_be16(&mut data, value.len() as u16);
            push_bytes(&mut data, value);
            assert(self.headers@.subrange(0, i + 1).drop_last() =~= self.headers@.subrange(0, i as int));
            i = i + 1;
            assert(data@ =~= head + headers_bytes(self.headers@.subrange(0, i as int)));
        }
        assert(self.headers@.subrange(0, self.headers@.len() as int) =~= self.headers@);
        assert(data@ =~= request_bytes(*self));
        data
    }
}

/// Offsets of a request payload: after the verb, after the path, and the
/// announced verb, path and body lengths.
pub open spec fn request_verb_len(d: Seq<u8>) -> int {
    read_be16(d.subrange(8, 10)) as int
}

pub open spec fn request_path_len(d: Seq<u8>) -> int {
    read_be16(d.subrange(10 + request_verb_len(d), 12 + request_verb_len(d))) as int
}

pub open spec fn request_body_at(d: Seq<u8>) -> int {
    12 + request_verb_len(d) + request_path_len(d)
}

pub open spec fn request_body_len(d: Seq<u8>) -> int {
    read_be32(d.subrange(request_body_at(d), request_body_at(d) + 4)) as int
}

/// The verb and path bytes of a request payload.
pub open spec fn request_verb(d: Seq<u8>) -> Seq<u8> {
    d.subrange(10, 10 + request_verb_len(d))
}

pub open spec fn request_path(d: Seq<u8>) -> Seq<u8> {
    d.subrange(12 + request_verb_len(d), request_body_at(d))
}

/// Whether a request payload holds every field it announces, with text
/// fields in UTF-8.
pub open spec fn request_well_formed(d: Seq<u8>) -> bool {
    &&& d.len() >= 12
    &&& 12 + request_verb_len(d) <= d.len()
    &&& request_body_at(d) + 4 <= d.len()
    &&& request_body_at(d) + 4 + request_body_len(d) <= d.len()
    &&& valid_utf8(request_verb(d))
    &&& valid_utf8(request_path(d))
}

impl WebSocketRequest {
    /// Reads a request payload (after its type byte). The headers are not read.
    pub fn parse(data: &[u8]) -> (r: Result<WebSocketRequest, SignalError>)
        ensures
            r is Ok <==> request_well_formed(data@),
            r matches Ok(q) ==> {
                let b = request_body_at(data@) + 4;
                &&& q.id == read_be64(data@.subrange(0, 8))
                &&& q.verb@ == decode_utf8(request_verb(data@))
                &&& q.path@ == decode_utf8(request_path(data@))
                &&& q.body == if request_body_len(data@) > 0 {
                    Some(q.body->0)
                } else {
                    None::<Vec<u8>>
                }
                &&& q.body matches Some(v) ==> v@ == data@.subrange(b, b + request_body_len(data@))
                &&& q.headers@.len() == 0
            },
            r matches Err(e) ==> e == SignalError::MalformedMessage,
    {
        let len = data.len();
        if len < 12 {
            return Err(SignalError::MalformedMessage);
        }
        let id = get_be64(data, 0);
        let verb_len = get_be16(data, 8) as usize;
        if len - 12 < verb_len {
            return Err(SignalError::MalformedMessage);
        }
        let verb_bytes = copy_range(data, 10, 10 + verb_len);
        let path_len = get_be16(data, 10 + verb_len) as usize;
        if len - 12 - verb_len < path_len + 4 {
            return Err(SignalError::MalformedMessage);
        }
        let path_bytes = copy_range(data, 12 + verb_len, 12 + verb_len + path_len);
        let body_at = 12 + verb_len + path_len;
        let body_len = get_be32(data, body_at) as usize;
        if len - body_at - 4 < body_len {
            return Err(SignalError::MalformedMessage);
        }
        let verb = match utf8_string(verb_bytes) {
            Some(s) => s,
            None => return Err(SignalError::MalformedMessage),
        };
        let path = match utf8_string(path_bytes) {
            Some(s) => s,
            None => return Err(SignalError::MalformedMessage),
        };
        let body = if body_len > 0 {
            Some(copy_range(data, body_at + 4, body_at + 4 + body_len))
        } else {
            None
        };
        Ok(WebSocketRequest { id, verb, path, body, headers: Vec::new() })
    }
}

/// A response to a request.
pub struct WebSocketResponse {
    pub id: u64,
    pub status: u16,
    pub message: Option<String>,
    pub body: Option<Vec<u8>>,
    pub headers: Vec<(String, String)>,
}

pub open spec fn message_field(m: Option<String>) -> Seq<u8> {
    match m {
        Some(s) => field16(encode_utf8(s@)),
        None => be16(0),
    }
}

/// Wire form of a response; its headers are not sent.
pub open spec fn response_bytes(r: WebSocketResponse) -> Seq<u8> {
    seq![2u8] + be64(r.id) + be16(r.status) + message_field(r.message) + body_field(r.body)
}

impl WebSocketResponse {
    pub open spec fn fits(&self) -> bool {
        &&& self.message matches Some(m) ==> encode_utf8(m@).len() <= u16::MAX
        &&& self.body matches Some(b) ==> b@.len() <= u32::MAX
    }

    pub fn serialize(&self) -> (r: Vec<u8>)
        requires
            self.fits(),
        ensures
            r@ == response_bytes(*self),
    {
        let mut data: Vec<u8> = Vec::new();
        data.push(2u8);
        push_be64(&mut data, self.id);
        push_be16(&mut data, self.status);
        let ghost before_message = data@;
        match &self.message {
            Some(m) => {
                let bytes = m.as_str().as_bytes();
                push_be16(&mut data, bytes.len() as u16);
                push_bytes(&mut data, bytes);
            },
            None => {
                push_be16(&mut data, 0u16);
            },
        }
        assert(data@ =~= before_message + message_field(self.message));
        let ghost before_body = data@;
        match &self.body {
            Some(body) => {
                push_be32(&mut data, body.len() as u32);
                push_bytes(&mut data, body.as_slice());
            },
            None => {
                push_be32(&mut data, 0u32);
            },
        }
        assert(data@ =~= before_body + body_field(self.body));
        assert(data@ =~= response_bytes(*self));
        data
    }
}

pub open spec fn response_message_len(d: Seq<u8>) -> int {
    read_be16(d.subrange(10, 12)) as int
}

/// Whether a response payload holds its message field, in UTF-8.
pub open spec fn response_well_formed(d: Seq<u8>) -> bool {
    &&& d.len() >= 12
    &&& 12 + response_message_len(d) <= d.len()
    &&& response_message_len(d) > 0 ==> valid_utf8(d.subrange(12, 12 + response_message_len(d)))
}

/// The body a response payload carries: present when its length field is
/// there, non-zero, and the bytes are all there.
pub open spec fn response_body(d: Seq<u8>) -> Option<Seq<u8>> {
    let at = 12 + response_message_len(d);
    if at + 4 <= d.len() {
        let n = read_be32(d.subrange(at, at + 4)) as int;
        if n > 0 && at + 4 + n <= d.len() {
            Some(d.subrange(at + 4, at + 4 + n))
        } else {
            None
        }
    } else {
        None
    }
}

impl WebSocketResponse {
    /// Reads a response payload (after its type byte).
    pub fn parse(data: &[u8]) -> (r: Result<WebSocketResponse, SignalError>)
        ensures
            r is Ok <==> response_well_formed(data@),
            r matches Ok(q) ==> {
                &&& q.id == read_be64(data@.subrange(0, 8))
                &&& q.status == read_be16(data@.subrange(8, 10))
                &&& (q.message is Some <==> response_message_len(data@) > 0)
                &&& q.message matches Some(m) ==> m@ == decode_utf8(
                    data@.subrange(12, 12 + response_message_len(data@)),
                )
                &&& (q.body is Some <==> response_body(data@) is Some)
                &&& q.body matches Some(b) ==> Some(b@) == response_body(data@)
                &&& q.headers@.len() == 0
            },
            r matches Err(e) ==> e == SignalError::MalformedMessage,
    {
        let len = data.len();
        if len < 12 {
            return Err(SignalError::MalformedMessage);
        }
        let id = get_be64(data, 0);
        let status = get_be16(data, 8);
        let msg_len = get_be16(data, 10) as usize;
        if len - 12 < msg_len {
            return Err(SignalError::MalformedMessage);
        }
        let message = if msg_len > 0 {
            match utf8_string(copy_range(data, 12, 12 + msg_len)) {
                Some(s) => Some(s),
                None => return Err(SignalError::MalformedMessage),
            }
        } else {
            None
        };
        let at = 12 + msg_len;
        let body = if len - at >= 4 {
            let body_len = get_be32(data, at) as usize;
            if body_len > 0 && len - at - 4 >= body_len {
                Some(copy_range(data, at + 4, at + 4 + body_len))
            } else {
                None
            }
        } else {
            None
        };
        Ok(WebSocketResponse { id, status, message, body, headers: Vec::new() })
    }
}

/// A message of the push service: a request or a response.
pub enum WebSocketEnvelope {
    Request(WebSocketRequest),
    Response(WebSocketResponse),
}

impl WebSocketEnvelope {
    /// Reads a message: its first byte says request (1) or response (2).
    pub fn parse(data: &[u8]) -> (r: Result<WebSocketEnvelope, SignalError>)
        ensures
            r is Ok <==> data@.len() > 0 && (data@[0] == 1u8 && request_well_formed(data@.drop_first())
                || data@[0] == 2u8 && response_well_formed(data@.drop_first())),
            r matches Ok(WebSocketEnvelope::Request(_)) ==> data@[0] == 1u8,
            r matches Ok(WebSocketEnvelope::Response(_)) ==> data@[0] == 2u8,
            r matches Err(e) ==> e == SignalError::MalformedMessage,
    {
        if data.len() == 0 {
            return Err(SignalError::MalformedMessage);
        }
        let payload = vstd::slice::slice_subrange(data, 1, data.len());
        assert(payload@ =~= data@.drop_first());
        if data[0] == 1u8 {
            Ok(WebSocketEnvelope::Request(WebSocketRequest::parse(payload)?))
        } else if data[0] == 2u8 {
            Ok(WebSocketEnvelope::Response(WebSocketResponse::parse(payload)?))
        } else {
            Err(SignalError::MalformedMessage)
        }
    }
}

pub open spec fn message_path() -> Seq<char> {
    "/api/v1/message"@
}

pub open spec fn queue_empty_path() -> Seq<char> {
    "/api/v1/queue/empty"@
}

/// What a request from the service means to the application: a message
/// request with a body is an envelope, the queue-empty request says so,
/// anything else is ignored.
pub fn classify_request(request: WebSocketRequest) -> (r: Option<IncomingMessage>)
    ensures
        request.path@ == message_path() && request.body is Some ==> (r matches Some(
            IncomingMessage::Envelope(b),
        ) && b == request.body->0),
        request.path@ == queue_empty_path() ==> r matches Some(IncomingMessage::QueueEmpty),
        request.path@ != message_path() && request.path@ != queue_empty_path() ==> r is None,
        request.path@ == message_path() && request.body is None ==> r is None,
{
    proof {
        reveal_strlit("/api/v1/message");
        reveal_strlit("/api/v1/queue/empty");
    }
    let message = String::from_str("/api/v1/message");
    let queue_empty = String::from_str("/api/v1/queue/empty");
    assert(message_path().len() != queue_empty_path().len());
    if request.path == message {
        match request.body {
            Some(body) => Some(IncomingMessage::Envelope(body)),
            None => None,
        }
    } else if request.path == queue_empty {
        Some(IncomingMessage::QueueEmpty)
    } else {
        None
    }
}

/// Longest wait between reconnection attempts, in seconds.
pub const MAX_RECONNECT_DELAY_SECS: u64 = 60;

/// Number of reconnection attempts.
pub const RECONNECT_ATTEMPTS: u32 = 5;

/// The wait after a failed attempt: double the last, at most a minute.
pub fn next_reconnect_delay(delay_secs: u64) -> (r: u64)
    ensures
        r == if 2 * delay_secs <= MAX_RECONNECT_DELAY_SECS {
            2 * delay_secs
        } else {
            MAX_RECONNECT_DELAY_SECS as int
        },
{
    if delay_secs <= MAX_RECONNECT_DELAY_SECS / 2 {
        delay_secs * 2
    } else {
        MAX_RECONNECT_DELAY_SECS
    }
}

/// What the provisioning socket delivers.
pub enum ProvisioningMessage {
    /// The provisioning id assigned by the service.
    Uuid(String),
    /// A provisioning envelope.
    Envelope(Vec<u8>),
    /// The connection failed.
    Error(String),
}

/// Reads a provisioning message: type 1 carries the provisioning id as
/// UTF-8, type 2 an envelope.
pub fn parse_provisioning_message(data: &[u8]) -> (r: Result<ProvisioningMessage, SignalError>)
    ensures
        r is Ok <==> data@.len() > 0 && (data@[0] == 1u8 && valid_utf8(data@.drop_first())
            || data@[0] == 2u8),
        r matches Ok(ProvisioningMessage::Uuid(s)) ==> data@[0] == 1u8 && s@ == decode_utf8(
            data@.drop_first(),
        ),
        r matches Ok(ProvisioningMessage::Envelope(b)) ==> data@[0] == 2u8 && b@ == data@.drop_first(),
        r matches Ok(ProvisioningMessage::Error(_)) ==> false,
        r matches Err(e) ==> e == SignalError::MalformedMessage,
{
    if data.len() == 0 {
        return Err(SignalError::MalformedMessage);
    }
    let rest = copy_range(data, 1, data.len());
    assert(rest@ =~= data@.drop_first());
    if data[0] == 1u8 {
        match utf8_string(rest) {
            Some(s) => Ok(ProvisioningMessage::Uuid(s)),
            None => Err(SignalError::MalformedMessage),
        }
    } else if data[0] == 2u8 {
        Ok(ProvisioningMessage::Envelope(rest))
    } else {
        Err(SignalError::MalformedMessage)
    }
}

} // verus!
