//! Length-prefixed framing of DNS messages on streams.
use vstd::prelude::*;

use crate::dns::wire;
use crate::dns::wire::{push_all, push_u16, read_u16, slice_to_vec};

verus! {

/// Why a message cannot be framed or a frame cannot be read.
#[derive(Clone, Copy, Debug, PartialEq, Eq, Structural)]
pub enum FrameError {
    /// The message is longer than a frame can hold.
    TooLarge,
    /// The frame says that it is empty.
    EmptyMessage,
    /// The frame is not all there yet; so many bytes are missing.
    Incomplete(usize),
}

/// A message behind its length.
pub open spec fn framed(message: Seq<u8>) -> Seq<u8> {
    wire::be16_bytes(message.len() as u16) + message
}

/// Puts a message into a frame.
pub fn write_length_prefixed(message: &[u8]) -> (res: Result<Vec<u8>, FrameError>)
    ensures
        match res {
            Ok(bytes) => message@.len() <= u16::MAX && bytes@ == framed(message@),
            Err(e) => message@.len() > u16::MAX && e == FrameError::TooLarge,
        },
{
    if message.len() > 0xffff {
        return Err(FrameError::TooLarge);
    }
    let mut out: Vec<u8> = Vec::new();
    push_u16(&mut out, message.len() as u16);
    push_all(&mut out, message);
    assert(out@ =~= framed(message@));
    Ok(out)
}

/// How many bytes of body follow a frame's two length bytes; an empty body is an error.
pub fn body_length(prefix: &[u8]) -> (res: Result<usize, FrameError>)
    requires
        prefix@.len() == 2,
    ensures
        match res {
            Ok(n) => n == wire::be16(prefix@, 0) && n > 0,
            Err(e) => wire::be16(prefix@, 0) == 0 && e == FrameError::EmptyMessage,
        },
{
    let n: u16 = match read_u16(prefix, 0) {
        Some(n) => n,
        None => 0,
    };
    if n == 0 {
        return Err(FrameError::EmptyMessage);
    }
    Ok(n as usize)
}

/// The first frame of a stream: its message and how many bytes it takes.
pub open spec fn first_frame(stream: Seq<u8>) -> Result<(Seq<u8>, int), FrameError> {
    if stream.len() < 2 {
        Err(FrameError::Incomplete((2 - stream.len()) as usize))
    } else {
        let n = wire::be16(stream, 0) as int;
        if n == 0 {
            Err(FrameError::EmptyMessage)
        } else if stream.len() < 2 + n {
            Err(FrameError::Incomplete((2 + n - stream.len()) as usize))
        } else {
            Ok((stream.subrange(2, 2 + n), 2 + n))
        }
    }
}

/// Reads the first frame of a stream.
pub fn read_length_prefixed(stream: &[u8]) -> (res: Result<(Vec<u8>, usize), FrameError>)
    ensures
        match (first_frame(stream@), res) {
            (Err(e), Err(f)) => e == f,
            (Ok((message, used)), Ok((m, u))) => m@ == message && u == used,
            _ => false,
        },
{
    if stream.len() < 2 {
        return Err(FrameError::Incomplete(2 - stream.len()));
    }
    let n: usize = match read_u16(stream, 0) {
        Some(n) => n as usize,
        None => 0,
    };
    if n == 0 {
        return Err(FrameError::EmptyMessage);
    }
    if stream.len() < 2 + n {
        return Err(FrameError::Incomplete(2 + n - stream.len()));
    }
    Ok((slice_to_vec(stream, 2, 2 + n), 2 + n))
}

/// Reading a stream that starts with a framed message gives back that message and stops behind it,
/// whatever follows. A message may not be empty and must fit in a frame.
pub proof fn law_read_gives_back_written(message: Seq<u8>, rest: Seq<u8>)
    requires
        0 < message.len() <= u16::MAX,
    ensures
        first_frame(framed(message) + rest) == Ok::<(Seq<u8>, int), FrameError>(
            (message, framed(message).len() as int),
        ),
{
    let stream = framed(message) + rest;
    let n = message.len() as u16;
    assert(stream[0] == (n / 256) as u8 && stream[1] == (n % 256) as u8);
    assert(wire::be16(stream, 0) == n);
    assert(stream.subrange(2, 2 + n) =~= message);
}

/// What a frame is said to lack is exactly what it lacks: with so many more bytes a frame whose
/// length is known is read, and nothing is left over; with fewer it is still not all there.
pub proof fn law_missing_bytes_complete_the_frame(stream: Seq<u8>, more: Seq<u8>, missing: usize)
    requires
        stream.len() >= 2,
        first_frame(stream) == Err::<(Seq<u8>, int), FrameError>(FrameError::Incomplete(missing)),
        more.len() <= missing,
    ensures
        missing > 0,
        more.len() == missing ==> first_frame(stream + more) == Ok::<(Seq<u8>, int), FrameError>(
            ((stream + more).skip(2), (stream + more).len() as int),
        ),
        more.len() < missing ==> first_frame(stream + more) == Err::<(Seq<u8>, int), FrameError>(
            FrameError::Incomplete((missing - more.len()) as usize),
        ),
{
    let all = stream + more;
    assert(wire::be16(all, 0) == wire::be16(stream, 0));
    assert(all.subrange(2, all.len() as int) =~= all.skip(2));
}

/// A frame begins with the message's length, high byte first, and holds the message behind it.
pub proof fn law_frame_holds_message(message: Seq<u8>)
    requires
        message.len() <= u16::MAX,
    ensures
        framed(message).len() == message.len() + 2,
        framed(message)[0] * 256 + framed(message)[1] == message.len(),
        framed(message).skip(2) == message,
{
    assert(framed(message).skip(2) =~= message);
}

} // verus!
