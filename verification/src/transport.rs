//! Length-prefixed framing of messages on a byte stream.
//!
//! A message on the wire is a header of four bytes, the payload length as a
//! big-endian signed 32-bit integer, followed by the payload. Nothing here
//! touches a stream: [`frame`] gives the bytes to send, and a [`Receive`]
//! says how many bytes to read next and what the bytes read amount to.

use crate::bytes::{
    be_bytes, be_u32, lemma_be_bytes_read_back, push_be_bytes, read_be_u32, signed32, to_i32,
};
use vstd::prelude::*;
use vstd::utf8::{decode_utf8, valid_utf8};

verus! {

/// Number of bytes in a message header.
pub const HEADER_SIZE: usize = 4;

/// What went wrong on the stream.
#[derive(Clone, Copy, Debug, PartialEq, Eq, Structural)]
pub enum IoErrorKind {
    /// The stream ended before the bytes that were due had arrived.
    UnexpectedEof,
    /// The stream delivered what no message can hold.
    InvalidData,
}

/// Failure of a transport operation.
#[derive(Clone, Copy, Debug, PartialEq, Eq, Structural)]
pub enum MotionError {
    IOError(IoErrorKind),
}

impl MotionError {
    /// The text that describes this failure.
    pub fn message(&self) -> (text: String)
        ensures
            text@ == "IO related error"@,
    {
        "IO related error".to_string()
    }
}

/// The message that carries `payload`, as it lies on the wire.
pub open spec fn framed(payload: Seq<u8>) -> Seq<u8> {
    be_bytes(payload.len() as int) + payload
}

/// The payload length that the header at the start of `stream` announces.
pub open spec fn announced(stream: Seq<u8>) -> int {
    signed32(be_u32(stream, 0))
}

/// What one receive makes of a stream that holds `stream` and then ends: the
/// payload of the first message and the number of bytes taken, or the failure.
pub open spec fn received(stream: Seq<u8>) -> Result<(Seq<u8>, int), MotionError> {
    if stream.len() < HEADER_SIZE {
        Err(MotionError::IOError(IoErrorKind::UnexpectedEof))
    } else if announced(stream) < 0 {
        Err(MotionError::IOError(IoErrorKind::InvalidData))
    } else if stream.len() < HEADER_SIZE + announced(stream) {
        Err(MotionError::IOError(IoErrorKind::UnexpectedEof))
    } else {
        Ok(
            (
                stream.subrange(HEADER_SIZE as int, HEADER_SIZE + announced(stream)),
                HEADER_SIZE + announced(stream),
            ),
        )
    }
}

/// Frames a payload for sending: its length as header, then the payload.
/// The header holds the low 32 bits of the length.
pub fn frame(payload: &[u8]) -> (message: Vec<u8>)
    ensures
        message@ == framed(payload@),
{
    let mut message: Vec<u8> = Vec::new();
    push_be_bytes(&mut message, payload.len());
    message.extend_from_slice(payload);
    assert(message@ =~= framed(payload@));
    message
}

/// Where a receive stands between two reads of the stream.
#[derive(Clone, Copy, Debug, PartialEq, Eq, Structural)]
pub enum Receive {
    /// Nothing is read yet: the header is due.
    Header,
    /// The header announced a payload of this many bytes, which is due.
    Payload(usize),
}

/// What the bytes of a read amount to.
#[derive(Debug, PartialEq, Eq)]
pub enum Progress {
    /// More is due: the receive goes on from this state.
    Pending(Receive),
    /// The message is complete, and this is its payload.
    Message(Vec<u8>),
}

impl Receive {
    /// The number of bytes that are due in this state.
    pub open spec fn due(self) -> int {
        match self {
            Receive::Header => HEADER_SIZE as int,
            Receive::Payload(length) => length as int,
        }
    }

    /// The state in which a receive starts.
    pub fn new() -> (state: Self)
        ensures
            state == Receive::Header,
    {
        Receive::Header
    }

    /// The number of bytes to read from the stream next. The read is to be
    /// complete: it ends short of this number only where the stream ends.
    pub fn wanted(&self) -> (count: usize)
        ensures
            count == self.due(),
    {
        match self {
            Receive::Header => HEADER_SIZE,
            Receive::Payload(length) => *length,
        }
    }

    /// Takes the bytes that the read of [`Receive::wanted`] bytes delivered.
    ///
    /// Fewer bytes than were due mean that the stream has ended, which fails
    /// the receive, in the header as in the payload; so does a header that
    /// announces a negative length. A header in full leads on to the payload,
    /// and a payload in full is the message.
    pub fn advance(self, bytes: Vec<u8>) -> (r: Result<Progress, MotionError>)
        ensures
            bytes@.len() < self.due() ==> r == Err::<Progress, MotionError>(
                MotionError::IOError(IoErrorKind::UnexpectedEof),
            ),
            bytes@.len() > self.due() ==> r == Err::<Progress, MotionError>(
                MotionError::IOError(IoErrorKind::InvalidData),
            ),
            bytes@.len() == self.due() ==> match self {
                Receive::Header => if announced(bytes@) < 0 {
                    r == Err::<Progress, MotionError>(
                        MotionError::IOError(IoErrorKind::InvalidData),
                    )
                } else {
                    r == Ok::<Progress, MotionError>(
                        Progress::Pending(Receive::Payload(announced(bytes@) as usize)),
                    )
                },
                Receive::Payload(_) => r == Ok::<Progress, MotionError>(Progress::Message(bytes)),
            },
    {
        let due = self.wanted();
        if bytes.len() < due {
            return Err(MotionError::IOError(IoErrorKind::UnexpectedEof));
        }
        if bytes.len() > due {
            return Err(MotionError::IOError(IoErrorKind::InvalidData));
        }
        match self {
            Receive::Header => {
                let length = to_i32(read_be_u32(bytes.as_slice(), 0));
                if length < 0 {
                    Err(MotionError::IOError(IoErrorKind::InvalidData))
                } else {
                    Ok(Progress::Pending(Receive::Payload(length as usize)))
                }
            },
            Receive::Payload(_) => Ok(Progress::Message(bytes)),
        }
    }
}

/// Receives the first message of a stream that holds `stream` and then ends.
/// Returns the payload and the number of bytes taken from the stream.
pub fn read_frame(stream: &[u8]) -> (r: Result<(Vec<u8>, usize), MotionError>)
    ensures
        match r {
            Ok((payload, taken)) => received(stream@) == Ok::<(Seq<u8>, int), MotionError>(
                (payload@, taken as int),
            ),
            Err(e) => received(stream@) == Err::<(Seq<u8>, int), MotionError>(e),
        },
{
    let n = stream.len();
    let mut state = Receive::new();
    let mut taken: usize = 0;
    loop
        invariant
            n == stream@.len(),
            taken <= n,
            match state {
                Receive::Header => taken == 0,
                Receive::Payload(length) => taken == HEADER_SIZE && length == announced(stream@),
            },
        decreases
                (if state is Header {
                    1int
                } else {
                    0int
                }),
    {
        let due = state.wanted();
        let end = if n - taken > due {
            taken + due
        } else {
            n
        };
        let mut bytes: Vec<u8> = Vec::new();
        bytes.extend_from_slice(&stream[taken..end]);
        assert(bytes@ =~= stream@.subrange(taken as int, end as int));
        assert(state is Header && bytes@.len() == HEADER_SIZE ==> announced(bytes@) == announced(
            stream@,
        )) by {
            if state is Header && bytes@.len() == HEADER_SIZE {
                assert(bytes@[0] == stream@[0]);
                assert(bytes@[1] == stream@[1]);
                assert(bytes@[2] == stream@[2]);
                assert(bytes@[3] == stream@[3]);
            }
        }
        taken = end;
        match state.advance(bytes) {
            Err(e) => {
                return Err(e);
            },
            Ok(Progress::Message(payload)) => {
                return Ok((payload, taken));
            },
            Ok(Progress::Pending(next)) => {
                state = next;
            },
        }
    }
}

/// Decodes UTF-8 with `String::from_utf8` of the standard library, which
/// checks that the bytes are valid UTF-8 and, where they are, makes of them
/// the string that they encode. Verus takes this contract on trust.
#[verifier::external_body]
fn string_from_utf8(bytes: Vec<u8>) -> (r: Option<String>)
    ensures
        r is Some <==> valid_utf8(bytes@),
        r matches Some(text) ==> text@ == decode_utf8(bytes@),
{
    match String::from_utf8(bytes) {
        Ok(text) => Some(text),
        Err(_) => None,
    }
}

/// The description that a session takes from the first message received
/// after connecting: the text of its payload. Without a first message, or
/// with one that is not valid UTF-8, there is no description.
pub fn description_of(first: Option<Vec<u8>>) -> (r: Option<String>)
    ensures
        r is Some <==> first is Some && valid_utf8(first->0@),
        r matches Some(text) ==> text@ == decode_utf8(first->0@),
{
    match first {
        Some(payload) => string_from_utf8(payload),
        None => None,
    }
}

/// A message read back from its frame is the payload that was framed, and
/// the read takes the header and the payload, whatever follows them on the
/// stream. This holds of every payload whose length a header can hold.
pub proof fn lemma_frame_round_trip(payload: Seq<u8>, rest: Seq<u8>)
    requires
        payload.len() <= i32::MAX,
    ensures
        received(framed(payload) + rest) == Ok::<(Seq<u8>, int), MotionError>(
            (payload, HEADER_SIZE + payload.len()),
        ),
{
    let stream = framed(payload) + rest;
    assert(stream =~= be_bytes(payload.len() as int) + (payload + rest));
    lemma_be_bytes_read_back(payload.len() as int, payload + rest);
    assert(stream.subrange(HEADER_SIZE as int, HEADER_SIZE + payload.len()) =~= payload);
}

/// A stream that ends inside a payload fails the receive: no message
/// shorter than its header announces is ever delivered.
pub proof fn lemma_short_payload_fails(stream: Seq<u8>)
    requires
        stream.len() >= HEADER_SIZE,
        stream.len() < HEADER_SIZE + announced(stream),
    ensures
        received(stream) == Err::<(Seq<u8>, int), MotionError>(
            MotionError::IOError(IoErrorKind::UnexpectedEof),
        ),
{
}

} // verus!
