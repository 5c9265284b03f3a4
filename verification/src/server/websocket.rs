//! WebSocket (RFC 6455) framing: frames out, frame headers in, message
//! assembly, unmasking and the opening handshake.
use base64::{engine::general_purpose as b64, Engine};
use sha1::{Digest, Sha1};
use tokio::sync::mpsc::error::SendError;
use tokio::sync::mpsc::UnboundedSender;
use vstd::prelude::*;
use vstd::utf8::{decode_utf8, encode_utf8, valid_utf8};

use crate::http::request::Request;
use crate::http::response::Headers;
use crate::strmap::StrMap;
use crate::text::push_str;

verus! {

/// A WebSocket message.
#[derive(Debug, Clone)]
pub enum Message {
    Text(String),
    Binary(Vec<u8>),
    Ping(Vec<u8>),
    Pong(Vec<u8>),
    Close,
}

#[verifier::external_type_specification]
#[verifier::external_body]
#[verifier::reject_recursive_types(T)]
pub struct ExUnboundedSender<T>(UnboundedSender<T>);

#[verifier::external_type_specification]
#[verifier::external_body]
#[verifier::reject_recursive_types(T)]
pub struct ExSendError<T>(SendError<T>);

/// The sending half of a connection's outgoing message channel, with the
/// log of what has been handed to it.
pub struct WsSender {
    tx: UnboundedSender<Message>,
    log: Ghost<Seq<(u8, Seq<u8>)>>,
}

impl WsSender {
    /// The channel that this sender sends on.
    pub closed spec fn channel(&self) -> UnboundedSender<Message> {
        self.tx
    }

    /// The messages handed to the channel so far, oldest first, each as the
    /// opcode and payload of the frame it becomes.
    pub closed spec fn handed(&self) -> Seq<(u8, Seq<u8>)> {
        self.log@
    }

    /// A sender on the channel `tx`, with nothing handed to it yet.
    pub fn new(tx: UnboundedSender<Message>) -> (r: Self)
        ensures
            r.channel() == tx,
            r.handed() == Seq::<(u8, Seq<u8>)>::empty(),
    {
        WsSender { tx, log: Ghost(Seq::empty()) }
    }

    /// Calls `UnboundedSender::send` with `msg`. The contract records that
    /// `msg` was handed to this channel; whether the receiving half is still
    /// open to take it is not stated (tokio gives a refused message back in
    /// the error). The call aborts the process only if the channel's message
    /// count overflows, which no input decides.
    #[verifier::external_body]
    pub fn send(&mut self, msg: Message) -> (r: Result<(), SendError<Message>>)
        ensures
            final(self).channel() == old(self).channel(),
            final(self).handed() == old(self).handed().push(message_view(msg)),
    {
        self.tx.send(msg)
    }
}

/// The query parameters and headers of the request that opened a connection.
pub struct Handshake {
    pub query_params: StrMap,
    pub headers: Headers,
}

/// What a connection tells the chat rooms.
pub enum WsEvent {
    Connect { socket_id: usize, handshake: Handshake, sender: WsSender },
    Message(Message),
    Disconnect,
}

/// The `k` low-order bytes of `n`, most significant first.
pub open spec fn be_bytes(n: nat, k: nat) -> Seq<u8>
    decreases k,
{
    if k == 0 {
        Seq::<u8>::empty()
    } else {
        be_bytes(n / 256, (k - 1) as nat).push((n % 256) as u8)
    }
}

/// The number that big-endian bytes denote.
pub open spec fn be_value(s: Seq<u8>) -> nat
    decreases s.len(),
{
    if s.len() == 0 {
        0
    } else {
        be_value(s.drop_last()) * 256 + s.last() as nat
    }
}

pub open spec fn pow256(k: nat) -> nat
    decreases k,
{
    if k == 0 {
        1
    } else {
        256 * pow256((k - 1) as nat)
    }
}

/// The first byte of a frame: the final-fragment bit and the opcode's low four bits.
pub open spec fn first_byte(opcode: u8) -> u8 {
    (128 + opcode % 16) as u8
}

/// A final, unmasked frame with the given opcode and payload.
pub open spec fn frame_bytes(opcode: u8, p: Seq<u8>) -> Seq<u8> {
    if p.len() <= 125 {
        seq![first_byte(opcode), p.len() as u8] + p
    } else if p.len() <= 65535 {
        seq![first_byte(opcode), 126u8] + be_bytes(p.len(), 2) + p
    } else {
        seq![first_byte(opcode), 127u8] + be_bytes(p.len(), 8) + p
    }
}

fn push_be(out: &mut Vec<u8>, n: u64, k: u64)
    ensures
        final(out)@ == old(out)@ + be_bytes(n as nat, k as nat),
    decreases k,
{
    if k > 0 {
        push_be(out, n / 256, k - 1);
        out.push((n % 256) as u8);
    }
}

fn append(out: &mut Vec<u8>, src: &[u8])
    ensures
        final(out)@ == old(out)@ + src@,
{
    let mut i: usize = 0;
    while i < src.len()
        invariant
            0 <= i <= src.len(),
            out@ == old(out)@ + src@.take(i as int),
        decreases src.len() - i,
    {
        out.push(src[i]);
        assert(src@.take(i + 1) =~= src@.take(i as int).push(src@[i as int]));
        assert(old(out)@ + src@.take(i + 1) =~= old(out)@ + src@.take(i as int) + seq![
            src@[i as int],
        ]);
        i += 1;
    }
    assert(src@.take(src.len() as int) =~= src@);
}

/// A final, unmasked frame with `opcode` and `payload`; the length goes in
/// one byte up to 125, in two bytes up to 65535 and in eight bytes beyond.
pub fn make_ws_frame(opcode: u8, payload: &[u8]) -> (r: Vec<u8>)
    ensures
        r@ == frame_bytes(opcode, payload@),
{
    let mut frame: Vec<u8> = Vec::new();
    let first_byte = 0x80u8 | (opcode & 0x0Fu8);
    assert(0x80u8 | (opcode & 0x0Fu8) == (128 + opcode % 16) as u8) by (bit_vector);
    frame.push(first_byte);
    let n = payload.len();
    if n <= 125 {
        frame.push(n as u8);
    } else if n <= 65535 {
        frame.push(126);
        push_be(&mut frame, n as u64, 2);
    } else {
        frame.push(127);
        push_be(&mut frame, n as u64, 8);
    }
    append(&mut frame, payload);
    assert(frame@ =~= frame_bytes(opcode, payload@));
    frame
}

/// The opcode of each kind of message.
pub open spec fn message_opcode(m: Message) -> u8 {
    match m {
        Message::Text(_) => 1,
        Message::Binary(_) => 2,
        Message::Ping(_) => 9,
        Message::Pong(_) => 10,
        Message::Close => 8,
    }
}

/// The payload of each kind of message.
pub open spec fn message_payload(m: Message) -> Seq<u8> {
    match m {
        Message::Text(s) => encode_utf8(s@),
        Message::Binary(b) => b@,
        Message::Ping(b) => b@,
        Message::Pong(b) => b@,
        Message::Close => Seq::<u8>::empty(),
    }
}

/// A message as the frame it becomes: its opcode and its payload.
pub open spec fn message_view(m: Message) -> (u8, Seq<u8>) {
    (message_opcode(m), message_payload(m))
}

fn copy_bytes(b: &Vec<u8>) -> (r: Vec<u8>)
    ensures
        r@ == b@,
{
    let mut out: Vec<u8> = Vec::new();
    append(&mut out, b.as_slice());
    out
}

/// A copy of a message, of the same kind and with the same payload.
pub fn copy_message(m: &Message) -> (r: Message)
    ensures
        message_view(r) == message_view(*m),
{
    match m {
        Message::Text(s) => Message::Text(s.clone()),
        Message::Binary(b) => Message::Binary(copy_bytes(b)),
        Message::Ping(b) => Message::Ping(copy_bytes(b)),
        Message::Pong(b) => Message::Pong(copy_bytes(b)),
        Message::Close => Message::Close,
    }
}

/// The frame that carries a message to the peer.
pub fn message_frame(msg: &Message) -> (r: Vec<u8>)
    ensures
        r@ == frame_bytes(message_opcode(*msg), message_payload(*msg)),
{
    match msg {
        Message::Text(s) => make_ws_frame(1u8, s.as_str().as_bytes()),
        Message::Binary(b) => make_ws_frame(2u8, b.as_slice()),
        Message::Ping(p) => make_ws_frame(9u8, p.as_slice()),
        Message::Pong(p) => make_ws_frame(10u8, p.as_slice()),
        Message::Close => {
            let empty: Vec<u8> = Vec::new();
            make_ws_frame(8u8, empty.as_slice())
        },
    }
}

/// The fields of a frame's first two bytes: final fragment, opcode, mask
/// bit and the seven-bit length.
pub open spec fn header_fields(b0: u8, b1: u8) -> (bool, u8, bool, u64) {
    (b0 >= 128, b0 % 16, b1 >= 128, (b1 % 128) as u64)
}

/// Reads the final-fragment bit, the opcode, the mask bit and the
/// seven-bit length from the first two bytes of a frame.
pub fn parse_frame_header(header: &[u8]) -> (r: (bool, u8, bool, u64))
    requires
        header.len() >= 2,
    ensures
        r == header_fields(header[0], header[1]),
{
    let b0 = header[0];
    let b1 = header[1];
    let is_fin = (b0 >> 7u8) == 1;
    let opcode = b0 & 0b00001111u8;
    let has_mask = (b1 >> 7u8) == 1;
    let payload_len = b1 & 0b01111111u8;
    assert(((b0 >> 7u8) == 1) == (b0 >= 128)) by (bit_vector);
    assert(b0 & 0b00001111u8 == b0 % 16) by (bit_vector);
    assert(((b1 >> 7u8) == 1) == (b1 >= 128)) by (bit_vector);
    assert(b1 & 0b01111111u8 == b1 % 128) by (bit_vector);
    (is_fin, opcode, has_mask, payload_len as u64)
}

/// How many bytes of extended length follow a seven-bit length.
pub open spec fn ext_len_size(len7: u64) -> nat {
    if len7 == 126 {
        2
    } else if len7 == 127 {
        8
    } else {
        0
    }
}

/// The payload length that a seven-bit length and its extended bytes give.
pub open spec fn decoded_length(len7: u64, ext: Seq<u8>) -> nat {
    if len7 <= 125 {
        len7 as nat
    } else if len7 == 126 || len7 == 127 {
        be_value(ext)
    } else {
        0
    }
}

/// How many bytes of extended length to read after the first two.
pub fn extended_length_size(payload_len: u64) -> (r: usize)
    ensures
        r == ext_len_size(payload_len),
{
    if payload_len == 126 {
        2
    } else if payload_len == 127 {
        8
    } else {
        0
    }
}

proof fn lemma_be_value_bound(s: Seq<u8>)
    ensures
        be_value(s) < pow256(s.len()),
    decreases s.len(),
{
    if s.len() > 0 {
        lemma_be_value_bound(s.drop_last());
        let v = be_value(s.drop_last());
        let p = pow256(s.drop_last().len());
        assert(v * 256 + s.last() < 256 * p) by (nonlinear_arith)
            requires
                v < p,
                s.last() < 256,
        ;
    }
}

/// The payload length of a frame from its seven-bit length and the
/// extended-length bytes that follow it (big-endian).
pub fn payload_length(payload_len: u64, ext: &[u8]) -> (r: u64)
    requires
        ext.len() == ext_len_size(payload_len),
    ensures
        r == decoded_length(payload_len, ext@),
{
    if payload_len <= 125 {
        return payload_len;
    }
    if payload_len != 126 && payload_len != 127 {
        return 0;
    }
    let mut v: u64 = 0;
    let mut i: usize = 0;
    assert(ext@.take(0) =~= Seq::<u8>::empty());
    while i < ext.len()
        invariant
            0 <= i <= ext.len() <= 8,
            v == be_value(ext@.take(i as int)),
        decreases ext.len() - i,
    {
        proof {
            lemma_be_value_bound(ext@.take(i as int));
            assert(pow256(0) == 1);
            reveal_with_fuel(pow256, 8);
            assert(pow256(7) == 72057594037927936);
            lemma_pow256_mono(i as nat, 7);
        }
        assert(v * 256 + 255 <= u64::MAX) by (nonlinear_arith)
            requires
                v < 72057594037927936,
        ;
        assert(ext@.take(i + 1).drop_last() =~= ext@.take(i as int));
        v = v * 256 + ext[i] as u64;
        i += 1;
    }
    assert(ext@.take(ext.len() as int) =~= ext@);
    v
}

proof fn lemma_pow256_mono(a: nat, b: nat)
    requires
        a <= b,
    ensures
        pow256(a) <= pow256(b),
    decreases b,
{
    if a < b {
        lemma_pow256_mono(a, (b - 1) as nat);
    }
}

/// The payload with the mask applied: byte `i` XOR `mask[i % 4]`.
pub open spec fn masked(p: Seq<u8>, mask: Seq<u8>) -> Seq<u8> {
    Seq::new(p.len(), |i: int| p[i] ^ mask[i % 4])
}

/// Applies a frame's masking key to its payload.
pub fn unmask(payload: &mut Vec<u8>, mask: &[u8; 4])
    ensures
        final(payload)@ == masked(old(payload)@, mask@),
        final(payload)@.len() == old(payload)@.len(),
        forall|i: int|
            0 <= i < old(payload)@.len() ==> #[trigger] final(payload)@[i] == old(payload)@[i]
                ^ mask@[i % 4],
{
    let mut i: usize = 0;
    while i < payload.len()
        invariant
            0 <= i <= payload.len(),
            payload.len() == old(payload).len(),
            mask@.len() == 4,
            forall|j: int| 0 <= j < i ==> payload@[j] == old(payload)@[j] ^ mask@[j % 4],
            forall|j: int| i <= j < payload.len() ==> payload@[j] == old(payload)@[j],
        decreases payload.len() - i,
    {
        let b = payload[i] ^ mask[i % 4];
        payload.set(i, b);
        i += 1;
    }
    assert(payload@ =~= masked(old(payload)@, mask@));
}

/// `String::from_utf8`.
#[verifier::external_body]
fn utf8_string(bytes: Vec<u8>) -> (r: Option<String>)
    ensures
        r is Some <==> valid_utf8(bytes@),
        r matches Some(s) ==> s@ == decode_utf8(bytes@),
{
    String::from_utf8(bytes).ok()
}

/// What the reading side does with a frame.
pub enum FrameAction {
    /// Answer with a close frame and stop reading.
    Close,
    /// Answer a ping with a pong carrying its payload.
    Pong(Vec<u8>),
    /// Hand a message to the application.
    Deliver(Message),
    /// A control frame with an opcode that has no meaning; it is ignored.
    UnknownControl(u8),
    /// Nothing to do.
    Continue,
}

/// The reading side of a connection: the fragments of the message being
/// received and its opcode.
pub struct MessageAssembler {
    buffer: Vec<u8>,
    opcode: u8,
}

impl MessageAssembler {
    /// The bytes of the fragments received so far.
    pub closed spec fn pending(&self) -> Seq<u8> {
        self.buffer@
    }

    /// The opcode of the message being received (0 between messages).
    pub closed spec fn kind(&self) -> u8 {
        self.opcode
    }

    pub fn new() -> (r: Self)
        ensures
            r.pending() == Seq::<u8>::empty(),
            r.kind() == 0,
    {
        MessageAssembler { buffer: Vec::new(), opcode: 0 }
    }

    /// Checks a frame's header before its payload is read: an unmasked
    /// frame ends the connection (`false`); a data frame with an opcode
    /// starts a message of that kind.
    pub fn accept_header(&mut self, opcode: u8, has_mask: bool) -> (r: bool)
        ensures
            r == has_mask,
            final(self).pending() == old(self).pending(),
            final(self).kind() == (if has_mask && opcode != 0 && opcode < 8 {
                opcode
            } else {
                old(self).kind()
            }),
    {
        if !has_mask {
            return false;
        }
        if opcode != 0 && opcode < 8 && opcode != self.opcode {
            self.opcode = opcode;
        }
        true
    }

    /// Handles a frame's unmasked payload. Control frames (opcode 8 and
    /// above) are answered at once; data frames add to the message, which
    /// the final fragment completes: a text message whose bytes are valid
    /// UTF-8, or a binary message, is delivered, and the reader starts over.
    pub fn finish_frame(&mut self, is_fin: bool, opcode: u8, payload: Vec<u8>) -> (r: FrameAction)
        ensures
            opcode >= 8 ==> final(self).pending() == old(self).pending() && final(self).kind()
                == old(self).kind(),
            opcode == 8 ==> r is Close,
            opcode == 9 ==> (r matches FrameAction::Pong(p) && p@ == payload@),
            opcode == 10 ==> (r matches FrameAction::Deliver(Message::Pong(p)) && p@ == payload@),
            opcode > 10 ==> r == FrameAction::UnknownControl(opcode),
            opcode < 8 && !is_fin ==> final(self).pending() == old(self).pending() + payload@
                && final(self).kind() == old(self).kind() && r is Continue,
            opcode < 8 && is_fin ==> {
                let data = old(self).pending() + payload@;
                &&& final(self).pending() == Seq::<u8>::empty()
                &&& final(self).kind() == 0
                &&& (old(self).kind() == 1 && valid_utf8(data)) ==> (r matches FrameAction::Deliver(
                    Message::Text(s),
                ) && s@ == decode_utf8(data))
                &&& (old(self).kind() == 1 && !valid_utf8(data)) ==> r is Continue
                &&& old(self).kind() == 2 ==> (r matches FrameAction::Deliver(Message::Binary(b))
                    && b@ == data)
                &&& (old(self).kind() != 1 && old(self).kind() != 2) ==> r is Continue
            },
    {
        if opcode >= 8 {
            return if opcode == 8 {
                FrameAction::Close
            } else if opcode == 9 {
                FrameAction::Pong(payload)
            } else if opcode == 10 {
                FrameAction::Deliver(Message::Pong(payload))
            } else {
                FrameAction::UnknownControl(opcode)
            };
        }
        append(&mut self.buffer, payload.as_slice());
        if !is_fin {
            return FrameAction::Continue;
        }
        let kind = self.opcode;
        let mut data: Vec<u8> = Vec::new();
        std::mem::swap(&mut data, &mut self.buffer);
        self.opcode = 0;
        if kind == 1 {
            match utf8_string(data) {
                Some(text) => FrameAction::Deliver(Message::Text(text)),
                None => FrameAction::Continue,
            }
        } else if kind == 2 {
            FrameAction::Deliver(Message::Binary(data))
        } else {
            FrameAction::Continue
        }
    }
}

/// `Sha1::digest`.
pub uninterp spec fn sha1_of(data: Seq<u8>) -> Seq<u8>;

/// Calls `Sha1::digest` (sha1 crate) and copies the digest out. The
/// contract names the result and states its documented length, 20 bytes.
#[verifier::external_body]
fn sha1_digest(data: &[u8]) -> (r: Vec<u8>)
    ensures
        r@ == sha1_of(data@),
        r@.len() == 20,
{
    Sha1::digest(data).to_vec()
}

/// The base64 digit for a six-bit value (RFC 4648 standard alphabet).
pub open spec fn b64_digit(v: int) -> char {
    if v < 26 {
        (v + 65) as char
    } else if v < 52 {
        (v - 26 + 97) as char
    } else if v < 62 {
        (v - 52 + 48) as char
    } else if v == 62 {
        '+'
    } else {
        '/'
    }
}

/// Standard base64 with padding (RFC 4648, section 4): each three bytes
/// become four digits; a final one or two bytes become four characters
/// ending in `==` or `=`.
pub open spec fn base64_of(d: Seq<u8>) -> Seq<char>
    decreases d.len(),
{
    if d.len() == 0 {
        Seq::<char>::empty()
    } else if d.len() == 1 {
        seq![b64_digit(d[0] as int / 4), b64_digit((d[0] % 4) * 16), '=', '=']
    } else if d.len() == 2 {
        seq![
            b64_digit(d[0] as int / 4),
            b64_digit((d[0] % 4) * 16 + d[1] / 16),
            b64_digit((d[1] % 16) * 4),
            '=',
        ]
    } else {
        seq![
            b64_digit(d[0] as int / 4),
            b64_digit((d[0] % 4) * 16 + d[1] / 16),
            b64_digit((d[1] % 16) * 4 + d[2] / 64),
            b64_digit(d[2] as int % 64),
        ] + base64_of(d.skip(3))
    }
}

/// Calls `STANDARD.encode` (base64 crate), which writes standard base64
/// with padding. The call panics when the encoded length overflows
/// `usize`; the precondition keeps far from that.
#[verifier::external_body]
fn base64_encode(data: &[u8]) -> (r: String)
    requires
        data@.len() <= usize::MAX / 2,
    ensures
        r@ == base64_of(data@),
{
    b64::STANDARD.encode(data)
}

/// The GUID that RFC 6455 appends to the client's key.
pub open spec fn ws_guid() -> Seq<char> {
    "258EAFA5-E914-47DA-95CA-C5AB0DC85B11"@
}

/// The `Sec-WebSocket-Accept` value for a client's key: the base64 of the
/// SHA-1 of the key followed by the GUID.
pub open spec fn accept_key_of(key: Seq<char>) -> Seq<char> {
    base64_of(sha1_of(encode_utf8(key + ws_guid())))
}

proof fn lemma_base64_len(d: Seq<u8>)
    ensures
        base64_of(d).len() == 4 * ((d.len() + 2) / 3),
    decreases d.len(),
{
    if d.len() >= 3 {
        lemma_base64_len(d.skip(3));
    }
}

/// The `Sec-WebSocket-Accept` value for a client's key; it is 28
/// characters long.
pub fn accept_key(key: &str) -> (r: String)
    ensures
        r@ == accept_key_of(key@),
        r@.len() == 28,
{
    let mut combined = String::new();
    push_str(&mut combined, key);
    push_str(&mut combined, "258EAFA5-E914-47DA-95CA-C5AB0DC85B11");
    let digest = sha1_digest(combined.as_str().as_bytes());
    proof {
        lemma_base64_len(digest@);
    }
    base64_encode(digest.as_slice())
}

/// Why a connection could not be upgraded.
#[derive(Debug, Clone, Copy, PartialEq, Eq)]
pub enum UpgradeError {
    MissingKey,
}

/// The text of the answer that switches a connection to WebSocket.
pub open spec fn switching_text(accept: Seq<char>) -> Seq<char> {
    "HTTP/1.1 101 Switching Protocols\r\nUpgrade: websocket\r\nConnection: Upgrade\r\nSec-WebSocket-Accept: "@
        + accept + "\r\n\r\n"@
}

/// The answer to an upgrade request: the request must carry a
/// `Sec-WebSocket-Key` header.
pub fn handshake_response(request: &Request) -> (r: Result<Vec<u8>, UpgradeError>)
    requires
        request.headers.wf(),
    ensures
        match request.headers.lookup("Sec-WebSocket-Key"@) {
            Some(k) => r matches Ok(b) && b@ == encode_utf8(switching_text(accept_key_of(k))),
            None => r == Err::<Vec<u8>, UpgradeError>(UpgradeError::MissingKey),
        },
{
    let key = match request.headers.get("Sec-WebSocket-Key") {
        Some(k) => k,
        None => return Err(UpgradeError::MissingKey),
    };
    let accept = accept_key(key.as_str());
    let mut text = String::new();
    push_str(
        &mut text,
        "HTTP/1.1 101 Switching Protocols\r\nUpgrade: websocket\r\nConnection: Upgrade\r\nSec-WebSocket-Accept: ",
    );
    push_str(&mut text, accept.as_str());
    push_str(&mut text, "\r\n\r\n");
    let empty: Vec<u8> = Vec::new();
    let bytes = crate::http::response::text_then_bytes(&text, empty.as_slice());
    assert(bytes@ =~= encode_utf8(text@));
    Ok(bytes)
}

proof fn lemma_be_round(n: nat, k: nat)
    requires
        n < pow256(k),
    ensures
        be_value(be_bytes(n, k)) == n,
        be_bytes(n, k).len() == k,
    decreases k,
{
    if k == 0 {
        assert(pow256(0) == 1);
    } else {
        let p = pow256((k - 1) as nat);
        assert(n / 256 < p) by (nonlinear_arith)
            requires
                n < 256 * p,
        ;
        lemma_be_round(n / 256, (k - 1) as nat);
        let b = be_bytes(n / 256, (k - 1) as nat);
        let c = (n % 256) as u8;
        assert(be_bytes(n, k) == b.push(c));
        assert(b.push(c).drop_last() =~= b);
        assert(b.push(c).last() == c);
        assert(n == (n / 256) * 256 + n % 256) by (nonlinear_arith);
    }
}

/// A frame read back: its header gives the final-fragment bit, the
/// opcode's low four bits and no mask, its length fields give the
/// payload's length, and the payload follows them.
#[verifier::spinoff_prover]
pub proof fn law_frame_round_trip(opcode: u8, p: Seq<u8>)
    requires
        p.len() <= u64::MAX,
    ensures
        ({
            let f = frame_bytes(opcode, p);
            let h = header_fields(f[0], f[1]);
            let n = ext_len_size(h.3);
            &&& h.0
            &&& h.1 == opcode % 16
            &&& !h.2
            &&& f.len() == 2 + n + p.len()
            &&& decoded_length(h.3, f.subrange(2, 2 + n as int)) == p.len()
            &&& f.subrange(2 + n as int, f.len() as int) == p
        }),
{
    let f = frame_bytes(opcode, p);
    assert(first_byte(opcode) >= 128);
    assert(first_byte(opcode) % 16 == opcode % 16);
    if p.len() <= 125 {
        assert(f.subrange(2, 2) =~= Seq::<u8>::empty());
        assert(f.subrange(2, f.len() as int) =~= p);
    } else if p.len() <= 65535 {
        lemma_frame_extended(opcode, p, 126, 2);
    } else {
        lemma_frame_extended(opcode, p, 127, 8);
    }
}

/// The extended-length fields of a frame read back as its payload's length.
proof fn lemma_frame_extended(opcode: u8, p: Seq<u8>, len7: u8, k: nat)
    requires
        (len7 == 126 && k == 2 && 125 < p.len() <= 65535) || (len7 == 127 && k == 8 && 65535
            < p.len() <= u64::MAX),
    ensures
        ({
            let f = frame_bytes(opcode, p);
            &&& f == seq![first_byte(opcode), len7] + be_bytes(p.len(), k) + p
            &&& f[1] == len7
            &&& f.len() == 2 + k + p.len()
            &&& be_value(f.subrange(2, 2 + k as int)) == p.len()
            &&& f.subrange(2 + k as int, f.len() as int) == p
        }),
{
    reveal_with_fuel(pow256, 9);
    if k == 8 {
        assert(pow256(8) == 18446744073709551616);
    } else {
        assert(pow256(2) == 65536);
    }
    lemma_be_round(p.len(), k);
    let f = frame_bytes(opcode, p);
    let e = be_bytes(p.len(), k);
    assert(f.subrange(2, 2 + k as int) =~= e);
    assert(f.subrange(2 + k as int, f.len() as int) =~= p);
}

/// Masking keeps the length, and every byte of the payload, at whatever
/// position, is XORed with the key byte at that position modulo 4.
pub proof fn law_masked_bytes(p: Seq<u8>, mask: Seq<u8>)
    ensures
        masked(p, mask).len() == p.len(),
        forall|i: int| 0 <= i < p.len() ==> #[trigger] masked(p, mask)[i] == p[i] ^ mask[i % 4],
{
}

/// Masking twice with the same key gives back the payload.
pub proof fn law_unmask_twice(p: Seq<u8>, mask: Seq<u8>)
    requires
        mask.len() == 4,
    ensures
        masked(masked(p, mask), mask) == p,
{
    assert forall|i: int| 0 <= i < p.len() implies masked(masked(p, mask), mask)[i] == p[i] by {
        let x = p[i];
        let m = mask[i % 4];
        assert((x ^ m) ^ m == x) by (bit_vector);
    }
    assert(masked(masked(p, mask), mask) =~= p);
}

} // verus!
