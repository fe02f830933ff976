//! The framed channel at the level of messages.
//!
//! A message travels as the payload of one frame.  Which message a frame
//! holds is a matter of position: the first frame from the parent is the
//! configuration, every later one a request, and every frame to the parent
//! is a response.  So the receiver is told which kind to read.
use crate::frame::encode_frame;
use crate::frame::frame_of;
use crate::frame::lemma_split_of_frame;
use crate::frame::FrameError;
use crate::frame::FrameReader;
use crate::frame::Split;
use crate::frame::split_frame;
use crate::message::decode_all;
use crate::message::lemma_parse_all_is_exact;
use crate::message::parse_all;
use crate::message::DecodeError;
use crate::message::Message;
use vstd::prelude::*;

verus! {

/// Why no message could be received.  In each case the stream cannot be
/// read any further.
#[derive(Debug, Clone, Copy, PartialEq, Eq, Structural)]
pub enum ReceiveError {
    /// The stream ended, and what is left of it is no whole frame.
    EndOfStream,
    /// The frame at the front of the stream was refused.
    Frame(FrameError),
    /// The frame's payload is not the encoding of one message of the kind
    /// that was asked for.
    Decode(DecodeError),
}

/// Takes the next frame off the reader and reads the message in it.
/// `ended` tells whether the stream has ended, so that no more input will
/// be pushed into the reader.
///
/// While the frame at the front is incomplete there is no message: not yet,
/// if the stream goes on, and never, if it has ended.  The reader then stays
/// as it is.  A whole frame leaves the reader, whether or not it holds a
/// message.  It holds one when its payload is the encoding of a message from
/// the first byte to the last: a payload that goes on after a message is
/// refused like one that is cut short.
pub fn receive<T: Message>(reader: &mut FrameReader, ended: bool) -> (r: Result<
    Option<T>,
    ReceiveError,
>)
    requires
        old(reader).wf(),
    ensures
        final(reader).wf(),
        final(reader).limit() == old(reader).limit(),
        match split_frame(old(reader).pending(), old(reader).limit()) {
            Split::Incomplete => {
                &&& final(reader).pending() == old(reader).pending()
                &&& if ended {
                    r matches Err(ReceiveError::EndOfStream)
                } else {
                    r matches Ok(None)
                }
            },
            Split::Oversized => {
                &&& r matches Err(ReceiveError::Frame(FrameError::TooLong))
                &&& final(reader).pending() == old(reader).pending()
            },
            Split::Frame { payload, rest } => {
                &&& final(reader).pending() == rest
                &&& match parse_all::<T>(payload) {
                    Some(message) => r matches Ok(Some(received)) && received@ == message,
                    None => r matches Err(ReceiveError::Decode(DecodeError::Malformed)),
                }
            },
        },
{
    match reader.next_frame() {
        Ok(Some(payload)) => match decode_all::<T>(payload.as_slice()) {
            Ok(message) => Ok(Some(message)),
            Err(e) => Err(ReceiveError::Decode(e)),
        },
        Ok(None) => if ended {
            Err(ReceiveError::EndOfStream)
        } else {
            Ok(None)
        },
        Err(e) => Err(ReceiveError::Frame(e)),
    }
}

/// The frame that carries a message: what is to be written to the stream.
///
/// A message whose encoding is longer than `max_len`, or longer than four
/// bytes can count, is refused.
pub fn send<T: Message>(message: &T, max_len: usize) -> (r: Result<Vec<u8>, FrameError>)
    requires
        T::encodable(message@),
    ensures
        r is Ok <==> T::encoding(message@).len() <= max_len && T::encoding(message@).len()
            <= u32::MAX,
        r matches Ok(frame) ==> frame@ == frame_of(T::encoding(message@)),
        r matches Err(e) ==> e == FrameError::TooLong,
{
    let payload = message.encode();
    encode_frame(payload.as_slice(), max_len)
}

/// What is sent is what is received: the frame of a message, followed by
/// anything, splits into a payload that reads back, as a whole, as that
/// message, and what followed.
pub proof fn lemma_sent_is_received<T: Message>(message: T::V, rest: Seq<u8>, max_len: nat)
    requires
        T::encodable(message),
        T::encoding(message).len() <= u32::MAX,
        T::encoding(message).len() <= max_len,
    ensures
        split_frame(frame_of(T::encoding(message)) + rest, max_len) == (Split::Frame {
            payload: T::encoding(message),
            rest,
        }),
        parse_all::<T>(T::encoding(message)) == Some(message),
{
    let payload = T::encoding(message);
    lemma_split_of_frame(payload, rest, max_len);
    lemma_parse_all_is_exact::<T>(payload, message);
}

} // verus!
