//! The peer wire protocol: the fixed 68-byte handshake preamble and the
//! length-prefixed peer messages, encoded and decoded byte-exactly.
use vstd::prelude::*;

verus! {

use crate::bencode::bytes_eq;
use crate::bittorrent::{InfoHash, PeerId};

/// The 19 bytes of the protocol name literal.
pub open spec fn spec_protocol_name() -> Seq<u8> {
    seq![
        66u8,
        105u8,
        116u8,
        84u8,
        111u8,
        114u8,
        114u8,
        101u8,
        110u8,
        116u8,
        32u8,
        112u8,
        114u8,
        111u8,
        116u8,
        111u8,
        99u8,
        111u8,
        108u8,
    ]
}

/// The 68-byte handshake preamble: name length, the protocol name, 8
/// reserved zero bytes, the info-hash and the peer id.
pub open spec fn spec_handshake(ih: Seq<u8>, pid: Seq<u8>) -> Seq<u8> {
    seq![19u8] + spec_protocol_name() + seq![0u8, 0u8, 0u8, 0u8, 0u8, 0u8, 0u8, 0u8] + ih + pid
}

fn protocol_name_bytes() -> (r: Vec<u8>)
    ensures
        r@ == spec_protocol_name(),
{
    let mut v: Vec<u8> = Vec::new();
    v.push(66);
    v.push(105);
    v.push(116);
    v.push(84);
    v.push(111);
    v.push(114);
    v.push(114);
    v.push(101);
    v.push(110);
    v.push(116);
    v.push(32);
    v.push(112);
    v.push(114);
    v.push(111);
    v.push(116);
    v.push(111);
    v.push(99);
    v.push(111);
    v.push(108);
    proof {
        assert(v@ =~= spec_protocol_name());
    }
    v
}

/// Build the handshake preamble this client sends.
pub fn build_handshake(info_hash: &InfoHash, peer_id: &PeerId) -> (r: Vec<u8>)
    requires
        info_hash@.len() == 20,
        peer_id@.len() == 20,
    ensures
        r@ == spec_handshake(info_hash@, peer_id@),
        r@.len() == 68,
{
    let mut out: Vec<u8> = Vec::new();
    out.push(19);
    let mut name = protocol_name_bytes();
    out.append(&mut name);
    let mut k: usize = 0;
    while k < 8
        invariant
            0 <= k <= 8,
            out@ == seq![19u8] + spec_protocol_name() + Seq::new(k as nat, |i: int| 0u8),
        decreases 8 - k,
    {
        proof {
            assert(Seq::new(k as nat + 1, |i: int| 0u8) =~= Seq::new(k as nat, |i: int| 0u8).push(
                0u8,
            ));
        }
        out.push(0);
        k = k + 1;
    }
    let mut ih = vstd::slice::slice_to_vec(info_hash.as_bytes());
    out.append(&mut ih);
    let mut pid = vstd::slice::slice_to_vec(peer_id.as_bytes());
    out.append(&mut pid);
    proof {
        assert(Seq::new(8nat, |i: int| 0u8) =~= seq![0u8, 0u8, 0u8, 0u8, 0u8, 0u8, 0u8, 0u8]);
        assert(out@ =~= spec_handshake(info_hash@, peer_id@));
    }
    out
}

/// Why a received handshake was refused.
#[derive(Debug)]
pub enum HandshakeError {
    /// The preamble is not 68 bytes.
    WrongLength,
    /// The name length or the protocol name differs.
    WrongProtocol,
    /// The peer is in a different swarm.
    InfoHashMismatch,
}

/// Check a received handshake preamble against the expected swarm and hand
/// back the remote peer's id. Accepted exactly when the preamble is 68 bytes
/// of the right protocol carrying the expected info-hash.
pub fn check_handshake(reply: &[u8], expected: &InfoHash) -> (r: Result<PeerId, HandshakeError>)
    ensures
        r is Ok <==> (reply@.len() == 68 && reply@[0] == 19 && reply@.subrange(1, 20)
            == spec_protocol_name() && reply@.subrange(28, 48) == expected@),
        r matches Ok(p) ==> p@ == reply@.subrange(48, 68),
{
    if reply.len() != 68 {
        return Err(HandshakeError::WrongLength);
    }
    if reply[0] != 19 {
        return Err(HandshakeError::WrongProtocol);
    }
    let name = protocol_name_bytes();
    if !bytes_eq(vstd::slice::slice_subrange(reply, 1, 20), name.as_slice()) {
        return Err(HandshakeError::WrongProtocol);
    }
    if !bytes_eq(vstd::slice::slice_subrange(reply, 28, 48), expected.as_bytes()) {
        return Err(HandshakeError::InfoHashMismatch);
    }
    Ok(PeerId::from_bytes(vstd::slice::slice_subrange(reply, 48, 68)))
}

/// The big-endian 4-byte form of `n < 2^32`.
pub open spec fn be32(n: int) -> Seq<u8> {
    seq![
        (n / 0x1000000 % 256) as u8,
        (n / 0x10000 % 256) as u8,
        (n / 0x100 % 256) as u8,
        (n % 256) as u8,
    ]
}

/// The value of 4 big-endian bytes.
pub open spec fn val32(b: Seq<u8>) -> int {
    b[0] * 0x1000000 + b[1] * 0x10000 + b[2] * 0x100 + b[3]
}

fn push_be32(out: &mut Vec<u8>, n: u32)
    ensures
        final(out)@ == old(out)@ + be32(n as int),
{
    out.push((n / 0x1000000 % 256) as u8);
    out.push((n / 0x10000 % 256) as u8);
    out.push((n / 0x100 % 256) as u8);
    out.push((n % 256) as u8);
    proof {
        assert(final(out)@ =~= old(out)@ + be32(n as int));
    }
}

/// A peer message after the handshake.
#[derive(Debug)]
pub enum Message {
    KeepAlive,
    Choke,
    Unchoke,
    Interested,
    NotInterested,
    Have(u32),
    Bitfield(Vec<u8>),
    Request { index: u32, begin: u32, length: u32 },
    Piece { index: u32, begin: u32, block: Vec<u8> },
    Cancel { index: u32, begin: u32, length: u32 },
}

/// The full frame of a message: a 4-byte big-endian length prefix, then for
/// everything but a keep-alive a 1-byte id and fixed-width big-endian fields.
pub open spec fn spec_encode_message(m: Message) -> Seq<u8> {
    match m {
        Message::KeepAlive => be32(0),
        Message::Choke => be32(1) + seq![0u8],
        Message::Unchoke => be32(1) + seq![1u8],
        Message::Interested => be32(1) + seq![2u8],
        Message::NotInterested => be32(1) + seq![3u8],
        Message::Have(p) => be32(5) + seq![4u8] + be32(p as int),
        Message::Bitfield(bits) => be32(1 + bits@.len() as int) + seq![5u8] + bits@,
        Message::Request { index, begin, length } => be32(13) + seq![6u8] + be32(index as int)
            + be32(begin as int) + be32(length as int),
        Message::Piece { index, begin, block } => be32(9 + block@.len() as int) + seq![7u8] + be32(
            index as int,
        ) + be32(begin as int) + block@,
        Message::Cancel { index, begin, length } => be32(13) + seq![8u8] + be32(index as int)
            + be32(begin as int) + be32(length as int),
    }
}

/// Encode a message as its wire frame.
pub fn encode_message(m: &Message) -> (r: Vec<u8>)
    requires
        (*m matches Message::Bitfield(bits) ==> bits@.len() < 0xffff_ffff),
        (*m matches Message::Piece { index, begin, block } ==> block@.len() <= 0xffff_fff6),
    ensures
        r@ == spec_encode_message(*m),
{
    let mut out: Vec<u8> = Vec::new();
    match m {
        Message::KeepAlive => {
            push_be32(&mut out, 0);
        },
        Message::Choke => {
            push_be32(&mut out, 1);
            out.push(0);
        },
        Message::Unchoke => {
            push_be32(&mut out, 1);
            out.push(1);
        },
        Message::Interested => {
            push_be32(&mut out, 1);
            out.push(2);
        },
        Message::NotInterested => {
            push_be32(&mut out, 1);
            out.push(3);
        },
        Message::Have(p) => {
            push_be32(&mut out, 5);
            out.push(4);
            push_be32(&mut out, *p);
        },
        Message::Bitfield(bits) => {
            push_be32(&mut out, 1 + bits.len() as u32);
            out.push(5);
            let mut bb = vstd::slice::slice_to_vec(bits.as_slice());
            out.append(&mut bb);
        },
        Message::Request { index, begin, length } => {
            push_be32(&mut out, 13);
            out.push(6);
            push_be32(&mut out, *index);
            push_be32(&mut out, *begin);
            push_be32(&mut out, *length);
        },
        Message::Piece { index, begin, block } => {
            push_be32(&mut out, 9 + block.len() as u32);
            out.push(7);
            push_be32(&mut out, *index);
            push_be32(&mut out, *begin);
            let mut bb = vstd::slice::slice_to_vec(block.as_slice());
            out.append(&mut bb);
        },
        Message::Cancel { index, begin, length } => {
            push_be32(&mut out, 13);
            out.push(8);
            push_be32(&mut out, *index);
            push_be32(&mut out, *begin);
            push_be32(&mut out, *length);
        },
    }
    proof {
        assert(out@ =~= spec_encode_message(*m));
    }
    out
}

/// Exactly when a message body (the frame after its length prefix) is one of
/// the protocol's layouts.
pub open spec fn wire_body_ok(p: Seq<u8>) -> bool {
    ||| p.len() == 0
    ||| (p.len() == 1 && (p[0] == 0 || p[0] == 1 || p[0] == 2 || p[0] == 3))
    ||| (p.len() == 5 && p[0] == 4)
    ||| (p.len() >= 1 && p[0] == 5)
    ||| (p.len() == 13 && (p[0] == 6 || p[0] == 8))
    ||| (p.len() >= 9 && p[0] == 7)
}

proof fn lemma_val32_round(b: Seq<u8>)
    requires
        b.len() == 4,
    ensures
        0 <= val32(b) < 0x1_0000_0000,
        be32(val32(b)) == b,
{
    let v = val32(b);
    assert(be32(v) =~= b) by {
        assert(v / 0x1000000 % 256 == b[0]);
        assert(v / 0x10000 % 256 == b[1]);
        assert(v / 0x100 % 256 == b[2]);
        assert(v % 256 == b[3]);
    }
}

fn read_be32(p: &[u8], pos: usize) -> (r: u32)
    requires
        pos + 4 <= p@.len(),
    ensures
        r as int == val32(p@.subrange(pos as int, pos as int + 4)),
        be32(r as int) == p@.subrange(pos as int, pos as int + 4),
{
    let r: u32 = (p[pos] as u32) * 0x1000000 + (p[pos + 1] as u32) * 0x10000 + (p[pos + 2] as u32)
        * 0x100 + (p[pos + 3] as u32);
    proof {
        let b = p@.subrange(pos as int, pos as int + 4);
        assert(b[0] == p@[pos as int] && b[1] == p@[pos as int + 1] && b[2] == p@[pos as int + 2]
            && b[3] == p@[pos as int + 3]);
        lemma_val32_round(b);
    }
    r
}

/// Decode a message body (the frame after its length prefix). Accepted
/// exactly when the body is one of the protocol's layouts, and then the
/// decoded message re-frames to the length prefix plus this very body.
pub fn decode_message(p: &[u8]) -> (r: Option<Message>)
    requires
        p@.len() < 0xffff_ffff,
    ensures
        r is Some <==> wire_body_ok(p@),
        r matches Some(m) ==> spec_encode_message(m) == be32(p@.len() as int) + p@,
{
    let n = p.len();
    if n == 0 {
        proof {
            assert(spec_encode_message(Message::KeepAlive) =~= be32(0) + p@);
        }
        return Some(Message::KeepAlive);
    }
    let id = p[0];
    if n == 1 && id == 0 {
        proof {
            assert(spec_encode_message(Message::Choke) =~= be32(1) + p@);
        }
        return Some(Message::Choke);
    }
    if n == 1 && id == 1 {
        proof {
            assert(spec_encode_message(Message::Unchoke) =~= be32(1) + p@);
        }
        return Some(Message::Unchoke);
    }
    if n == 1 && id == 2 {
        proof {
            assert(spec_encode_message(Message::Interested) =~= be32(1) + p@);
        }
        return Some(Message::Interested);
    }
    if n == 1 && id == 3 {
        proof {
            assert(spec_encode_message(Message::NotInterested) =~= be32(1) + p@);
        }
        return Some(Message::NotInterested);
    }
    if n == 5 && id == 4 {
        let v = read_be32(p, 1);
        proof {
            assert(spec_encode_message(Message::Have(v)) =~= be32(5) + p@);
        }
        return Some(Message::Have(v));
    }
    if id == 5 {
        let bits = vstd::slice::slice_to_vec(vstd::slice::slice_subrange(p, 1, n));
        proof {
            assert(spec_encode_message(Message::Bitfield(bits)) =~= be32(n as int) + p@);
        }
        return Some(Message::Bitfield(bits));
    }
    if n == 13 && id == 6 {
        let index = read_be32(p, 1);
        let begin = read_be32(p, 5);
        let length = read_be32(p, 9);
        let m = Message::Request { index, begin, length };
        proof {
            assert(spec_encode_message(m) =~= be32(13) + p@);
        }
        return Some(m);
    }
    if n >= 9 && id == 7 {
        let index = read_be32(p, 1);
        let begin = read_be32(p, 5);
        let block = vstd::slice::slice_to_vec(vstd::slice::slice_subrange(p, 9, n));
        let m = Message::Piece { index, begin, block };
        proof {
            assert(spec_encode_message(m) =~= be32(n as int) + p@);
        }
        return Some(m);
    }
    if n == 13 && id == 8 {
        let index = read_be32(p, 1);
        let begin = read_be32(p, 5);
        let length = read_be32(p, 9);
        let m = Message::Cancel { index, begin, length };
        proof {
            assert(spec_encode_message(m) =~= be32(13) + p@);
        }
        return Some(m);
    }
    None
}

/// The four negotiation flags of one peer session, with their initial
/// values: both sides choked and uninterested until told otherwise.
#[derive(Debug, PartialEq)]
pub struct PeerConnection {
    pub hostname: String,
    pub me_choked: bool,
    pub me_interested: bool,
    pub they_choked: bool,
    pub they_interested: bool,
}

impl PeerConnection {
    /// The state right after a successful handshake.
    pub fn new(hostname: String) -> (r: PeerConnection)
        ensures
            r.hostname == hostname,
            r.me_choked && !r.me_interested && r.they_choked && !r.they_interested,
    {
        PeerConnection {
            hostname,
            me_choked: true,
            me_interested: false,
            they_choked: true,
            they_interested: false,
        }
    }

    /// Apply a received negotiation message to the flags; other messages
    /// leave them unchanged.
    pub fn on_message(&mut self, m: &Message)
        ensures
            final(self).hostname == old(self).hostname,
            final(self).they_choked == old(self).they_choked,
            final(self).they_interested == old(self).they_interested,
            final(self).me_choked == (match m {
                Message::Choke => true,
                Message::Unchoke => false,
                _ => old(self).me_choked,
            }),
            final(self).me_interested == (match m {
                Message::Interested => true,
                Message::NotInterested => false,
                _ => old(self).me_interested,
            }),
    {
        match m {
            Message::Choke => {
                self.me_choked = true;
            },
            Message::Unchoke => {
                self.me_choked = false;
            },
            Message::Interested => {
                self.me_interested = true;
            },
            Message::NotInterested => {
                self.me_interested = false;
            },
            _ => {
            },
        }
    }
}

/// The lifecycle of one peer session.
#[derive(Debug, PartialEq, Eq, Structural, Clone, Copy)]
pub enum ConnectionState {
    Connecting,
    Handshaking,
    Idle,
    Requesting,
    Transferring,
    Closed,
}

/// What happened on the session since the last step.
#[derive(Debug, PartialEq, Eq, Structural, Clone, Copy)]
pub enum ConnectionEvent {
    Connected,
    HandshakeDone,
    RequestSent,
    BlockReceived,
    TransferDone,
    SocketError,
    Shutdown,
}

/// The transition table of a peer session: connect, handshake, then move
/// between idle, requesting and transferring; any socket error or an
/// explicit shutdown closes the session, and `Closed` is terminal.
pub open spec fn spec_connection_step(s: ConnectionState, e: ConnectionEvent) -> ConnectionState {
    match (s, e) {
        (_, ConnectionEvent::SocketError) => ConnectionState::Closed,
        (_, ConnectionEvent::Shutdown) => ConnectionState::Closed,
        (ConnectionState::Closed, _) => ConnectionState::Closed,
        (ConnectionState::Connecting, ConnectionEvent::Connected) => ConnectionState::Handshaking,
        (ConnectionState::Handshaking, ConnectionEvent::HandshakeDone) => ConnectionState::Idle,
        (ConnectionState::Idle, ConnectionEvent::RequestSent) => ConnectionState::Requesting,
        (ConnectionState::Requesting, ConnectionEvent::BlockReceived) => (
        ConnectionState::Transferring),
        (ConnectionState::Transferring, ConnectionEvent::RequestSent) => (
        ConnectionState::Requesting),
        (ConnectionState::Transferring, ConnectionEvent::TransferDone) => ConnectionState::Idle,
        (_, _) => s,
    }
}

/// Advance a peer session by one event.
pub fn connection_step(s: ConnectionState, e: ConnectionEvent) -> (r: ConnectionState)
    ensures
        r == spec_connection_step(s, e),
        e is SocketError || e is Shutdown ==> r is Closed,
        s is Closed ==> r is Closed,
{
    match (s, e) {
        (_, ConnectionEvent::SocketError) => ConnectionState::Closed,
        (_, ConnectionEvent::Shutdown) => ConnectionState::Closed,
        (ConnectionState::Closed, _) => ConnectionState::Closed,
        (ConnectionState::Connecting, ConnectionEvent::Connected) => ConnectionState::Handshaking,
        (ConnectionState::Handshaking, ConnectionEvent::HandshakeDone) => ConnectionState::Idle,
        (ConnectionState::Idle, ConnectionEvent::RequestSent) => ConnectionState::Requesting,
        (ConnectionState::Requesting, ConnectionEvent::BlockReceived) => (
        ConnectionState::Transferring),
        (ConnectionState::Transferring, ConnectionEvent::RequestSent) => (
        ConnectionState::Requesting),
        (ConnectionState::Transferring, ConnectionEvent::TransferDone) => ConnectionState::Idle,
        (_, _) => s,
    }
}

} // verus!
