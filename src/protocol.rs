//! The wire protocol: operations, newline-delimited frames, and the text that
//! a relayed message carries.
use vstd::prelude::*;
use vstd::string::StringExecFns;
use crate::ids::{Channel, ClientId, Message, Room};

verus! {

/// What a client asks of the relay.
pub enum ClientOperation {
    /// Asks for the identifier the relay assigned to this connection.
    ConnectAttempt,
    /// Joins a room.
    RoomJoin(Room),
    /// Leaves a room.
    RoomLeave(Room),
    /// Ends the session.
    Disconnect,
    /// Sends a message to the other members of a room.
    Message { room: Room, channel: Channel, message: Message },
}

/// What the relay tells a client.
pub enum ServerOperation {
    /// The identifier assigned to the connection.
    ClientConnectApproved(ClientId),
    /// Reserved; nothing sends it yet.
    RequestCurrentTaskStep,
}

/// The envelope of every frame a client sends.
#[allow(non_snake_case)]
pub struct ClientMessage {
    pub clientId: Option<ClientId>,
    pub clientOperation: ClientOperation,
}

/// The longest frame, in bytes, that a session reads.
pub const MAX_FRAME_LEN: usize = 65536;

/// The newline byte that ends a frame.
pub const NEWLINE: u8 = 10;

/// The carriage-return byte that may stand before it.
pub const CARRIAGE_RETURN: u8 = 13;

/// What one read of a line yielded.
pub enum Frame {
    /// Nothing: the peer closed the stream.
    End,
    /// More than `MAX_FRAME_LEN` bytes.
    Oversized,
    /// The frame's text, without its line ending.
    Line(Vec<u8>),
}

/// `b` without one trailing newline, and then without one trailing carriage
/// return.
pub open spec fn line_body(b: Seq<u8>) -> Seq<u8> {
    let s = if b.len() > 0 && b.last() == NEWLINE {
        b.drop_last()
    } else {
        b
    };
    if s.len() > 0 && s.last() == CARRIAGE_RETURN {
        s.drop_last()
    } else {
        s
    }
}

/// Classifies the bytes of one read up to and including a newline.
pub fn read_frame(buf: &Vec<u8>) -> (r: Frame)
    ensures
        r is End <==> buf@.len() == 0,
        r is Oversized <==> buf@.len() > MAX_FRAME_LEN,
        r matches Frame::Line(body) ==> body@ == line_body(buf@),
{
    let n = buf.len();
    if n == 0 {
        return Frame::End;
    }
    if n > MAX_FRAME_LEN {
        return Frame::Oversized;
    }
    let mut end: usize = n;
    if buf[end - 1] == NEWLINE {
        end = end - 1;
    }
    if end > 0 && buf[end - 1] == CARRIAGE_RETURN {
        end = end - 1;
    }
    let mut body: Vec<u8> = Vec::new();
    let mut i: usize = 0;
    while i < end
        invariant
            end <= buf@.len(),
            i <= end,
            body@ == buf@.subrange(0, i as int),
        decreases end - i,
    {
        body.push(buf[i]);
        i = i + 1;
        assert(body@ =~= buf@.subrange(0, i as int));
    }
    assert(body@ =~= line_body(buf@));
    Frame::Line(body)
}

/// The text the relay sends on to a room for a message: the message followed
/// by " RESPONSE".
pub open spec fn relay_text_of(message: Seq<char>) -> Seq<char> {
    message + " RESPONSE"@
}

/// The text relayed for `message`.
pub fn relay_text(message: &Message) -> (r: String)
    ensures
        r@ == relay_text_of(message@),
{
    let mut out = message.0.clone();
    out.append(" RESPONSE");
    out
}

/// `text` as one frame: followed by a newline.
pub fn frame_line(text: &String) -> (r: String)
    ensures
        r@ == text@.push('\n'),
{
    let mut out = text.clone();
    out.append("\n");
    proof {
        reveal_strlit("\n");
        assert(out@ =~= text@.push('\n'));
    }
    out
}

} // verus!
