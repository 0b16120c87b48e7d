//! The messages that clients and server exchange, and their bytes on the wire.

use vstd::prelude::*;
use crate::block::Block;
use crate::channel::Channel;
use crate::chunk::{CompressedChunk, decode_position, encode_position};
use crate::codec::{i32_le, push_i32, push_u32, push_u64, read_i32, read_u32, read_u64};
use crate::codec::{u32_from_le, u32_le, u64_from_le, u64_le};
use crate::codec::{lemma_i32_round_trip, lemma_u32_round_trip, lemma_u64_round_trip};
use crate::position::IVec3;

verus! {

/// What a client sends to the server.
#[derive(Clone, Copy, Debug, PartialEq, Eq, Structural)]
pub enum ClientMessage {
    Ping,
    /// The voxel at this world position is to become air.
    BreakBlock(IVec3),
    /// The voxel at this world position is to become this block.
    PlaceBlock(IVec3, Block),
    /// The chunk at this chunk position is wanted.
    RequestChunk(IVec3),
}

/// What the server sends on the general channels.
#[derive(Clone, Copy, Debug, PartialEq, Eq, Structural)]
pub enum ServerMessage {
    Pong,
}

/// What the server sends on the channel for large messages.
#[derive(Debug)]
pub enum ServerBlockMessage {
    Chunk(CompressedChunk),
}

/// Why a message was not handed to the transport.
#[derive(Clone, Copy, Debug, PartialEq, Eq, Structural)]
pub enum SendError {
    /// The channel takes no message now.
    CannotSend,
}

/// Why bytes could not be read as a message.
#[derive(Clone, Copy, Debug, PartialEq, Eq, Structural)]
pub enum MessageError {
    /// The bytes end before the message does.
    Truncated,
    /// The first four bytes name no kind of message.
    InvalidTag,
    /// The message holds a number that stands for no block.
    InvalidBlock,
}

/// A client as the transport sees it at one moment.
#[derive(Clone, Copy, Debug, PartialEq, Eq, Structural)]
pub struct Peer {
    pub id: u64,
    /// Whether the channel to this client takes a message now.
    pub can_send: bool,
}

/// The bytes of a message of a client: four bytes that name its kind (0
/// ping, 1 break, 2 place, 3 request), then its fields.
pub open spec fn encode_client_message(message: ClientMessage) -> Seq<u8> {
    match message {
        ClientMessage::Ping => u32_le(0),
        ClientMessage::BreakBlock(pos) => u32_le(1) + encode_position(pos),
        ClientMessage::PlaceBlock(pos, block) => u32_le(2) + encode_position(pos) + u32_le(
            block.spec_tag(),
        ),
        ClientMessage::RequestChunk(pos) => u32_le(3) + encode_position(pos),
    }
}

/// The message of a client that `bytes` starts with, or why they hold none.
/// Bytes that follow the message are ignored.
pub open spec fn decode_client_message(bytes: Seq<u8>) -> Result<ClientMessage, MessageError> {
    if bytes.len() < 4 {
        Err(MessageError::Truncated)
    } else {
        let kind = u32_from_le(bytes);
        if kind == 0 {
            Ok(ClientMessage::Ping)
        } else if kind > 3 {
            Err(MessageError::InvalidTag)
        } else if bytes.len() < 16 {
            Err(MessageError::Truncated)
        } else {
            let pos = decode_position(bytes.skip(4));
            if kind == 1 {
                Ok(ClientMessage::BreakBlock(pos))
            } else if kind == 3 {
                Ok(ClientMessage::RequestChunk(pos))
            } else if bytes.len() < 20 {
                Err(MessageError::Truncated)
            } else {
                match Block::spec_from_tag(u32_from_le(bytes.skip(16))) {
                    Some(block) => Ok(ClientMessage::PlaceBlock(pos, block)),
                    None => Err(MessageError::InvalidBlock),
                }
            }
        }
    }
}

/// The bytes of a message of the server: four bytes that name its kind.
pub open spec fn encode_server_message(message: ServerMessage) -> Seq<u8> {
    u32_le(0)
}

/// The message of the server that `bytes` starts with, or why they hold none.
pub open spec fn decode_server_message(bytes: Seq<u8>) -> Result<ServerMessage, MessageError> {
    if bytes.len() < 4 {
        Err(MessageError::Truncated)
    } else if u32_from_le(bytes) != 0 {
        Err(MessageError::InvalidTag)
    } else {
        Ok(ServerMessage::Pong)
    }
}

/// The bytes of a message that carries the compressed chunk `payload`: four
/// bytes that name its kind, the length of the payload in eight bytes, and
/// the payload.
pub open spec fn encode_block_message(payload: Seq<u8>) -> Seq<u8> {
    u32_le(0) + u64_le(payload.len() as u64) + payload
}

/// The compressed chunk of the message that `bytes` starts with, or why they
/// hold none.
pub open spec fn decode_block_message(bytes: Seq<u8>) -> Result<Seq<u8>, MessageError> {
    if bytes.len() < 4 {
        Err(MessageError::Truncated)
    } else if u32_from_le(bytes) != 0 {
        Err(MessageError::InvalidTag)
    } else if bytes.len() < 12 {
        Err(MessageError::Truncated)
    } else {
        let len = u64_from_le(bytes.skip(4));
        if bytes.len() - 12 < len {
            Err(MessageError::Truncated)
        } else {
            Ok(bytes.subrange(12, 12 + len))
        }
    }
}

/// What handing a message of `bytes` to the transport comes to: the bytes
/// where the channel takes a message, the error where it does not.
pub open spec fn spec_send(bytes: Seq<u8>, can_send: bool) -> Result<Seq<u8>, SendError> {
    if can_send {
        Ok(bytes)
    } else {
        Err(SendError::CannotSend)
    }
}

/// Whether the channel to every client takes a message, but for the client
/// `except`, if one is left out.
pub open spec fn all_can_send(peers: Seq<Peer>, except: Option<u64>) -> bool {
    forall|i: int|
        0 <= i < peers.len() && Some((#[trigger] peers[i]).id) != except ==> peers[i].can_send
}

/// Appends the bytes of `pos` to `out`.
pub fn push_position(out: &mut Vec<u8>, pos: IVec3)
    ensures
        final(out)@ == old(out)@ + encode_position(pos),
{
    push_i32(out, pos.x);
    push_i32(out, pos.y);
    push_i32(out, pos.z);
    assert(out@ =~= old(out)@ + encode_position(pos));
}

/// Reads the position whose bytes stand at `at` in `bytes`.
pub fn read_position(bytes: &Vec<u8>, at: usize) -> (pos: IVec3)
    requires
        at + 12 <= bytes.len(),
    ensures
        pos == decode_position(bytes@.skip(at as int)),
{
    let x = read_i32(bytes, at);
    let y = read_i32(bytes, at + 4);
    let z = read_i32(bytes, at + 8);
    assert(bytes@.skip(at as int).skip(4) =~= bytes@.skip(at + 4));
    assert(bytes@.skip(at as int).skip(8) =~= bytes@.skip(at + 8));
    IVec3 { x, y, z }
}

/// A position is read back from its bytes, whatever follows them.
pub proof fn lemma_position_round_trip(pos: IVec3, tail: Seq<u8>)
    ensures
        encode_position(pos).len() == 12,
        decode_position(encode_position(pos) + tail) == pos,
{
    lemma_i32_round_trip(pos.x, seq![]);
    lemma_i32_round_trip(pos.y, seq![]);
    lemma_i32_round_trip(pos.z, seq![]);
    let bytes = encode_position(pos) + tail;
    let x = i32_le(pos.x);
    let y = i32_le(pos.y);
    let z = i32_le(pos.z);
    assert(bytes[0] == x[0] && bytes[1] == x[1] && bytes[2] == x[2] && bytes[3] == x[3]);
    let sy = bytes.skip(4);
    assert(sy[0] == y[0] && sy[1] == y[1] && sy[2] == y[2] && sy[3] == y[3]);
    let sz = bytes.skip(8);
    assert(sz[0] == z[0] && sz[1] == z[1] && sz[2] == z[2] && sz[3] == z[3]);
}

/// A number is read back from its four bytes, whatever follows them.
pub proof fn lemma_u32_prefix(v: u32, tail: Seq<u8>)
    ensures
        u32_from_le(u32_le(v) + tail) == v,
{
    lemma_u32_round_trip(v, seq![]);
    let bytes = u32_le(v) + tail;
    let b = u32_le(v);
    assert(bytes[0] == b[0] && bytes[1] == b[1] && bytes[2] == b[2] && bytes[3] == b[3]);
}

/// A message that holds a kind and a position is read back from its bytes.
proof fn lemma_kind_and_position(kind: u32, pos: IVec3, tail: Seq<u8>)
    ensures
        (u32_le(kind) + encode_position(pos) + tail).len() >= 16,
        u32_from_le(u32_le(kind) + encode_position(pos) + tail) == kind,
        decode_position((u32_le(kind) + encode_position(pos) + tail).skip(4)) == pos,
        (u32_le(kind) + encode_position(pos) + tail).skip(16) == tail,
{
    let bytes = u32_le(kind) + encode_position(pos) + tail;
    lemma_u32_round_trip(kind, seq![]);
    lemma_position_round_trip(pos, tail);
    lemma_u32_prefix(kind, encode_position(pos) + tail);
    assert(bytes =~= u32_le(kind) + (encode_position(pos) + tail));
    assert(bytes.skip(4) =~= encode_position(pos) + tail);
    assert(bytes.skip(16) =~= tail);
}

/// Every message of a client is read back from its bytes, whatever follows
/// them.
pub proof fn lemma_client_message_round_trip(message: ClientMessage, tail: Seq<u8>)
    ensures
        decode_client_message(encode_client_message(message) + tail) == Ok::<
            ClientMessage,
            MessageError,
        >(message),
{
    match message {
        ClientMessage::Ping => {
            lemma_u32_round_trip(0, seq![]);
            lemma_u32_prefix(0, tail);
        },
        ClientMessage::BreakBlock(pos) => {
            lemma_kind_and_position(1, pos, tail);
        },
        ClientMessage::RequestChunk(pos) => {
            lemma_kind_and_position(3, pos, tail);
        },
        ClientMessage::PlaceBlock(pos, block) => {
            lemma_place_round_trip(pos, block, tail);
        },
    }
}

proof fn lemma_place_round_trip(pos: IVec3, block: Block, tail: Seq<u8>)
    ensures
        decode_client_message(encode_client_message(ClientMessage::PlaceBlock(pos, block)) + tail)
            == Ok::<ClientMessage, MessageError>(ClientMessage::PlaceBlock(pos, block)),
{
    let rest = u32_le(block.spec_tag()) + tail;
    let bytes = encode_client_message(ClientMessage::PlaceBlock(pos, block)) + tail;
    lemma_kind_and_position(2, pos, rest);
    lemma_u32_prefix(block.spec_tag(), tail);
    lemma_u32_round_trip(block.spec_tag(), seq![]);
    Block::lemma_tag_round_trip(block, 0);
    assert(bytes =~= u32_le(2) + encode_position(pos) + rest);
    assert(bytes.len() >= 20);
    assert(u32_from_le(bytes.skip(16)) == block.spec_tag());
}

/// The message of the server is read back from its bytes.
pub proof fn lemma_server_message_round_trip(message: ServerMessage, tail: Seq<u8>)
    ensures
        decode_server_message(encode_server_message(message) + tail) == Ok::<
            ServerMessage,
            MessageError,
        >(message),
{
    lemma_u32_prefix(0, tail);
    lemma_u32_round_trip(0, seq![]);
}

/// A compressed chunk is read back from the bytes of its message, whatever
/// follows them.
pub proof fn lemma_block_message_round_trip(payload: Seq<u8>, tail: Seq<u8>)
    requires
        payload.len() <= u64::MAX,
    ensures
        decode_block_message(encode_block_message(payload) + tail) == Ok::<Seq<u8>, MessageError>(
            payload,
        ),
{
    let len = payload.len() as u64;
    let bytes = encode_block_message(payload) + tail;
    lemma_u32_round_trip(0, seq![]);
    lemma_u64_round_trip(len, u64_le(len));
    lemma_u32_prefix(0, u64_le(len) + payload + tail);
    assert(bytes =~= u32_le(0) + (u64_le(len) + payload + tail));
    let after = bytes.skip(4);
    assert(after =~= u64_le(len) + (payload + tail));
    let l = u64_le(len);
    assert(u32_from_le(after) == u32_from_le(l)) by {
        assert(after[0] == l[0] && after[1] == l[1] && after[2] == l[2] && after[3] == l[3]);
    }
    assert(u32_from_le(after.skip(4)) == u32_from_le(l.skip(4))) by {
        let a = after.skip(4);
        let b = l.skip(4);
        assert(a[0] == b[0] && a[1] == b[1] && a[2] == b[2] && a[3] == b[3]);
    }
    assert(u64_from_le(after) == len);
    assert(bytes.subrange(12, 12 + len) =~= payload);
}

impl ClientMessage {
    /// The bytes of this message.
    pub fn encode(&self) -> (bytes: Vec<u8>)
        ensures
            bytes@ == encode_client_message(*self),
    {
        let mut out: Vec<u8> = Vec::new();
        match self {
            ClientMessage::Ping => {
                push_u32(&mut out, 0);
            },
            ClientMessage::BreakBlock(pos) => {
                push_u32(&mut out, 1);
                push_position(&mut out, *pos);
            },
            ClientMessage::PlaceBlock(pos, block) => {
                push_u32(&mut out, 2);
                push_position(&mut out, *pos);
                push_u32(&mut out, block.tag());
            },
            ClientMessage::RequestChunk(pos) => {
                push_u32(&mut out, 3);
                push_position(&mut out, *pos);
            },
        }
        assert(out@ =~= encode_client_message(*self));
        out
    }

    /// The message that `bytes` starts with.
    pub fn decode(bytes: &Vec<u8>) -> (r: Result<ClientMessage, MessageError>)
        ensures
            r == decode_client_message(bytes@),
    {
        if bytes.len() < 4 {
            return Err(MessageError::Truncated);
        }
        let kind = read_u32(bytes, 0);
        assert(bytes@.skip(0) =~= bytes@);
        if kind == 0 {
            return Ok(ClientMessage::Ping);
        }
        if kind > 3 {
            return Err(MessageError::InvalidTag);
        }
        if bytes.len() < 16 {
            return Err(MessageError::Truncated);
        }
        let pos = read_position(bytes, 4);
        if kind == 1 {
            return Ok(ClientMessage::BreakBlock(pos));
        }
        if kind == 3 {
            return Ok(ClientMessage::RequestChunk(pos));
        }
        if bytes.len() < 20 {
            return Err(MessageError::Truncated);
        }
        match Block::from_tag(read_u32(bytes, 16)) {
            Some(block) => Ok(ClientMessage::PlaceBlock(pos, block)),
            None => Err(MessageError::InvalidBlock),
        }
    }

    /// The channel on which messages of clients travel: the reliable one.
    pub fn channel() -> (channel: Channel)
        ensures
            channel == Channel::Reliable,
    {
        Channel::Reliable
    }

    /// Hands this message to the transport, on the reliable channel: gives
    /// the bytes to send where the channel takes a message, and the error
    /// where it does not.
    pub fn send(&self, can_send: bool) -> (r: Result<Vec<u8>, SendError>)
        ensures
            match r {
                Ok(bytes) => spec_send(encode_client_message(*self), can_send) == Ok::<
                    Seq<u8>,
                    SendError,
                >(bytes@),
                Err(e) => spec_send(encode_client_message(*self), can_send) == Err::<
                    Seq<u8>,
                    SendError,
                >(e),
            },
    {
        if can_send {
            Ok(self.encode())
        } else {
            Err(SendError::CannotSend)
        }
    }
}

/// Whether the channel to every client in `peers` takes a message, but for
/// the client `except`, if one is left out.
pub fn check_all_can_send(peers: &Vec<Peer>, except: Option<u64>) -> (all: bool)
    ensures
        all == all_can_send(peers@, except),
{
    let mut i: usize = 0;
    while i < peers.len()
        invariant
            i <= peers.len(),
            forall|k: int| 0 <= k < i && Some((#[trigger] peers@[k]).id) != except ==> peers@[k].can_send,
        decreases peers.len() - i,
    {
        let peer = peers[i];
        let left_out = match except {
            Some(id) => peer.id == id,
            None => false,
        };
        if !left_out && !peer.can_send {
            return false;
        }
        i += 1;
    }
    true
}

impl ServerMessage {
    /// The bytes of this message.
    pub fn encode(&self) -> (bytes: Vec<u8>)
        ensures
            bytes@ == encode_server_message(*self),
    {
        let mut out: Vec<u8> = Vec::new();
        push_u32(&mut out, 0);
        out
    }

    /// The message that `bytes` starts with.
    pub fn decode(bytes: &Vec<u8>) -> (r: Result<ServerMessage, MessageError>)
        ensures
            r == decode_server_message(bytes@),
    {
        if bytes.len() < 4 {
            return Err(MessageError::Truncated);
        }
        let kind = read_u32(bytes, 0);
        assert(bytes@.skip(0) =~= bytes@);
        if kind != 0 {
            return Err(MessageError::InvalidTag);
        }
        Ok(ServerMessage::Pong)
    }

    /// The channel on which these messages travel: the reliable one.
    pub fn channel() -> (channel: Channel)
        ensures
            channel == Channel::Reliable,
    {
        Channel::Reliable
    }

    /// Hands this message to the transport for one client: gives the bytes
    /// to send where the channel to that client takes a message, and the
    /// error where it does not.
    pub fn send(&self, can_send: bool) -> (r: Result<Vec<u8>, SendError>)
        ensures
            match r {
                Ok(bytes) => spec_send(encode_server_message(*self), can_send) == Ok::<
                    Seq<u8>,
                    SendError,
                >(bytes@),
                Err(e) => spec_send(encode_server_message(*self), can_send) == Err::<
                    Seq<u8>,
                    SendError,
                >(e),
            },
    {
        if can_send {
            Ok(self.encode())
        } else {
            Err(SendError::CannotSend)
        }
    }

    /// Hands this message to the transport for all clients: gives the bytes
    /// to send where the channel to every client takes a message, and the
    /// error where one does not.
    pub fn broadcast(&self, peers: &Vec<Peer>) -> (r: Result<Vec<u8>, SendError>)
        ensures
            match r {
                Ok(bytes) => spec_send(encode_server_message(*self), all_can_send(peers@, None))
                    == Ok::<Seq<u8>, SendError>(bytes@),
                Err(e) => spec_send(encode_server_message(*self), all_can_send(peers@, None))
                    == Err::<Seq<u8>, SendError>(e),
            },
    {
        self.send(check_all_can_send(peers, None))
    }

    /// Hands this message to the transport for all clients but `id`: gives
    /// the bytes to send where the channel to every other client takes a
    /// message, and the error where one does not.
    pub fn broadcast_except(&self, peers: &Vec<Peer>, id: u64) -> (r: Result<Vec<u8>, SendError>)
        ensures
            match r {
                Ok(bytes) => spec_send(
                    encode_server_message(*self),
                    all_can_send(peers@, Some(id)),
                ) == Ok::<Seq<u8>, SendError>(bytes@),
                Err(e) => spec_send(encode_server_message(*self), all_can_send(peers@, Some(id)))
                    == Err::<Seq<u8>, SendError>(e),
            },
    {
        self.send(check_all_can_send(peers, Some(id)))
    }
}

impl ServerBlockMessage {
    /// The compressed chunk that this message carries.
    pub open spec fn payload(&self) -> Seq<u8> {
        match self {
            ServerBlockMessage::Chunk(chunk) => chunk@,
        }
    }

    /// The bytes of this message.
    pub fn encode(&self) -> (bytes: Vec<u8>)
        ensures
            bytes@ == encode_block_message(self.payload()),
    {
        let mut out: Vec<u8> = Vec::new();
        match self {
            ServerBlockMessage::Chunk(chunk) => {
                push_u32(&mut out, 0);
                push_u64(&mut out, chunk.len() as u64);
                let mut i: usize = 0;
                while i < chunk.len()
                    invariant
                        i <= chunk.len(),
                        out@ == u32_le(0) + u64_le(chunk@.len() as u64) + chunk@.take(i as int),
                    decreases chunk.len() - i,
                {
                    out.push(chunk[i]);
                    assert(chunk@.take(i + 1) =~= chunk@.take(i as int).push(chunk@[i as int]));
                    assert(out@ =~= u32_le(0) + u64_le(chunk@.len() as u64) + chunk@.take(i + 1));
                    i += 1;
                }
                assert(chunk@.take(chunk@.len() as int) =~= chunk@);
            },
        }
        out
    }

    /// The message that `bytes` starts with.
    pub fn decode(bytes: &Vec<u8>) -> (r: Result<ServerBlockMessage, MessageError>)
        ensures
            match r {
                Ok(message) => decode_block_message(bytes@) == Ok::<Seq<u8>, MessageError>(
                    message.payload(),
                ),
                Err(e) => decode_block_message(bytes@) == Err::<Seq<u8>, MessageError>(e),
            },
    {
        if bytes.len() < 4 {
            return Err(MessageError::Truncated);
        }
        let kind = read_u32(bytes, 0);
        assert(bytes@.skip(0) =~= bytes@);
        if kind != 0 {
            return Err(MessageError::InvalidTag);
        }
        if bytes.len() < 12 {
            return Err(MessageError::Truncated);
        }
        let len = read_u64(bytes, 4);
        if ((bytes.len() - 12) as u64) < len {
            return Err(MessageError::Truncated);
        }
        let len = len as usize;
        let mut payload: Vec<u8> = Vec::with_capacity(len);
        let mut i: usize = 0;
        while i < len
            invariant
                i <= len,
                12 + len <= bytes.len(),
                payload@ == bytes@.subrange(12, 12 + i),
            decreases len - i,
        {
            payload.push(bytes[12 + i]);
            assert(payload@ =~= bytes@.subrange(12, 12 + i + 1));
            i += 1;
        }
        Ok(ServerBlockMessage::Chunk(payload))
    }

    /// The channel on which chunks travel: the one for large messages, since
    /// a chunk can be larger than the other channels take.
    pub fn channel() -> (channel: Channel)
        ensures
            channel == Channel::Block,
    {
        Channel::Block
    }

    /// Hands this message to the transport for one client, on the channel
    /// for large messages: gives the bytes to send where the channel to that
    /// client takes a message, and the error where it does not.
    pub fn send(&self, can_send: bool) -> (r: Result<Vec<u8>, SendError>)
        ensures
            match r {
                Ok(bytes) => spec_send(encode_block_message(self.payload()), can_send) == Ok::<
                    Seq<u8>,
                    SendError,
                >(bytes@),
                Err(e) => spec_send(encode_block_message(self.payload()), can_send) == Err::<
                    Seq<u8>,
                    SendError,
                >(e),
            },
    {
        if can_send {
            Ok(self.encode())
        } else {
            Err(SendError::CannotSend)
        }
    }

    /// Hands this message to the transport for all clients: gives the bytes
    /// to send where the channel to every client takes a message, and the
    /// error where one does not.
    pub fn broadcast(&self, peers: &Vec<Peer>) -> (r: Result<Vec<u8>, SendError>)
        ensures
            match r {
                Ok(bytes) => spec_send(
                    encode_block_message(self.payload()),
                    all_can_send(peers@, None),
                ) == Ok::<Seq<u8>, SendError>(bytes@),
                Err(e) => spec_send(encode_block_message(self.payload()), all_can_send(peers@, None))
                    == Err::<Seq<u8>, SendError>(e),
            },
    {
        self.send(check_all_can_send(peers, None))
    }

    /// Hands this message to the transport for all clients but `id`: gives
    /// the bytes to send where the channel to every other client takes a
    /// message, and the error where one does not.
    pub fn broadcast_except(&self, peers: &Vec<Peer>, id: u64) -> (r: Result<Vec<u8>, SendError>)
        ensures
            match r {
                Ok(bytes) => spec_send(
                    encode_block_message(self.payload()),
                    all_can_send(peers@, Some(id)),
                ) == Ok::<Seq<u8>, SendError>(bytes@),
                Err(e) => spec_send(
                    encode_block_message(self.payload()),
                    all_can_send(peers@, Some(id)),
                ) == Err::<Seq<u8>, SendError>(e),
            },
    {
        self.send(check_all_can_send(peers, Some(id)))
    }
}

} // verus!
