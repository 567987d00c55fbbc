//! The downstream consumer protocol: the messages a consumer exchanges with
//! the streamer, the binary framing of outbound messages, and the decisions
//! of the pull loop that serves a consumer from a growing file.
//!
//! Outbound framing: one type-code byte, then for a Chunk four big-endian
//! bytes of metadata length, the metadata bytes, and the payload.  The
//! metadata itself reaches this module as opaque, already serialized bytes.

use vstd::prelude::*;
use crate::ebml::{be_bytes, encode_be, pow256};

verus! {

/// A message from the consumer.
#[derive(Debug, Clone, Copy, PartialEq, Eq)]
pub enum ClientRequest {
    /// Request up to `size` bytes of the next chunk; the serving side
    /// applies its default when no size is given.
    Pull { size: Option<usize> },
    /// Terminate the stream.
    Stop,
}

/// Bookkeeping attached to a chunk.
#[derive(Debug, Clone, Copy, PartialEq, Eq, Structural)]
pub struct Metadata {
    /// How many payload bytes this chunk carries.
    pub chunk_size: usize,
    /// The cumulative bytes sent up to and including this chunk.
    pub offset: usize,
    /// The recording's size when the chunk was cut.
    pub total_size: usize,
}

impl Metadata {
    /// Bookkeeping for a chunk of `chunk_size` bytes ending at `offset` in
    /// a recording of `total_size` bytes.
    pub fn new(chunk_size: usize, offset: usize, total_size: usize) -> (r: Metadata)
        ensures
            r.chunk_size == chunk_size,
            r.offset == offset,
            r.total_size == total_size,
    {
        Metadata { chunk_size, offset, total_size }
    }
}

/// A message to the consumer.
#[derive(Debug, Clone, PartialEq, Eq)]
pub enum ServerResponse {
    /// The next run of bytes, with optional bookkeeping.
    Chunk { metadata: Option<Metadata>, data: Vec<u8> },
    /// No further data: the recording is closed and fully drained.
    EOF,
}

impl ServerResponse {
    /// The leading byte of the message's frame.
    pub fn type_code(&self) -> (r: u8)
        ensures
            self is Chunk ==> r == 0,
            self is EOF ==> r == 1,
    {
        match self {
            ServerResponse::Chunk { metadata: _, data: _ } => 0,
            ServerResponse::EOF => 1,
        }
    }

    /// The message's name, for reporting.
    pub fn name(&self) -> (r: &'static str)
        ensures
            self is Chunk ==> r@ == "Chunk"@,
            self is EOF ==> r@ == "EOF"@,
    {
        match self {
            ServerResponse::Chunk { metadata: _, data: _ } => "Chunk",
            ServerResponse::EOF => "EOF",
        }
    }
}

/// The frame of an EOF message: its type code alone.
pub open spec fn spec_eof_frame() -> Seq<u8> {
    seq![1u8]
}

/// The frame of a Chunk message: type code, four big-endian bytes of
/// metadata length — zero if there is none — the metadata, the payload.
pub open spec fn spec_chunk_frame(meta: Option<Seq<u8>>, data: Seq<u8>) -> Seq<u8> {
    let m: Seq<u8> = match meta {
        Some(m) => m,
        None => Seq::<u8>::empty(),
    };
    seq![0u8] + be_bytes(m.len() as int, 4) + m + data
}

/// The message codec of the consumer protocol.  It frames outbound
/// messages; inbound messages are JSON and are decoded at the transport
/// edge, which hands this library [`ClientRequest`] values.
pub struct SimpleCodec;

impl SimpleCodec {
    /// Frame an EOF message.
    pub fn encode_eof(dst: &mut Vec<u8>)
        ensures
            final(dst)@ == old(dst)@ + spec_eof_frame(),
    {
        dst.push(1);
        proof {
            assert(dst@ =~= old(dst)@ + spec_eof_frame());
        }
    }

    /// Frame a Chunk message around its serialized metadata and payload.
    /// Fails, writing nothing, if and only if the metadata does not fit the
    /// four-byte length field.
    pub fn encode_chunk(metadata: &Option<Vec<u8>>, data: &Vec<u8>, dst: &mut Vec<u8>) -> (r:
        Result<(), FrameError>)
        ensures
            match r {
                Ok(()) => {
                    &&& final(dst)@ == old(dst)@ + spec_chunk_frame(
                        match metadata {
                            Some(m) => Some(m@),
                            None => None,
                        },
                        data@,
                    )
                    &&& (metadata matches Some(m) ==> m@.len() <= u32::MAX)
                },
                Err(FrameError::MetadataTooLarge) => {
                    &&& final(dst)@ == old(dst)@
                    &&& metadata matches Some(m) && m@.len() > u32::MAX
                },
            },
    {
        proof {
            reveal_with_fuel(pow256, 9);
        }
        match metadata {
            Some(m) => {
                if m.len() as u64 > 0xffff_ffff {
                    return Err(FrameError::MetadataTooLarge);
                }
                dst.push(0);
                let len_bytes = encode_be(m.len() as u64, 4);
                append_to(dst, &len_bytes);
                append_to(dst, m);
                append_to(dst, data);
                proof {
                    assert(dst@ =~= old(dst)@ + spec_chunk_frame(Some(m@), data@));
                }
                Ok(())
            },
            None => {
                dst.push(0);
                let len_bytes = encode_be(0, 4);
                append_to(dst, &len_bytes);
                append_to(dst, data);
                proof {
                    assert(Seq::<u8>::empty() + data@ =~= data@);
                    assert(dst@ =~= old(dst)@ + spec_chunk_frame(None, data@));
                }
                Ok(())
            },
        }
    }
}

/// Why a message could not be framed.
#[derive(Debug, Clone, Copy, PartialEq, Eq, Structural)]
pub enum FrameError {
    /// Serialized metadata longer than the length field can say.
    MetadataTooLarge,
}

/// Append all of `src` to `dst`.
fn append_to(dst: &mut Vec<u8>, src: &Vec<u8>)
    ensures
        final(dst)@ == old(dst)@ + src@,
{
    let mut i: usize = 0;
    while i < src.len()
        invariant
            0 <= i <= src.len(),
            dst@ =~= old(dst)@ + src@.subrange(0, i as int),
        decreases src.len() - i,
    {
        dst.push(src[i]);
        i = i + 1;
    }
    proof {
        assert(dst@ =~= old(dst)@ + src@);
    }
}

/// How many bytes a Pull without a size asks for: 1 MiB.
pub const DEFAULT_PULL_SIZE: usize = 1024 * 1024;

/// The pull size a request asks for, or the protocol's default of
/// [`DEFAULT_PULL_SIZE`] bytes.
pub fn effective_pull_size(size: Option<usize>) -> (r: usize)
    ensures
        r == match size {
            Some(s) => s,
            None => DEFAULT_PULL_SIZE as usize,
        },
{
    match size {
        Some(s) => s,
        None => DEFAULT_PULL_SIZE,
    }
}

/// What the pull loop must do after a read.
#[derive(Debug, Clone, Copy, PartialEq, Eq, Structural)]
pub enum PullAction {
    /// Send a Chunk with this bookkeeping; the payload is what was read.
    SendChunk { metadata: Metadata },
    /// Send the one EOF message; the session is over.
    SendEof,
    /// The recording is still being written: wait, reopen, and read again.
    Wait,
}

/// One consumer's pull session over a recording: how many bytes it has been
/// sent, and whether its stream has ended.
pub struct PullSession {
    sent: usize,
    finished: bool,
}

impl PullSession {
    /// Cumulative payload bytes sent.
    pub closed spec fn spec_sent(self) -> int {
        self.sent as int
    }

    /// Whether the session has ended — by a Stop or by the one EOF.
    pub closed spec fn spec_finished(self) -> bool {
        self.finished
    }

    /// A session that has sent nothing.
    pub fn new() -> (r: PullSession)
        ensures
            r.spec_sent() == 0,
            !r.spec_finished(),
    {
        PullSession { sent: 0, finished: false }
    }

    /// Whether the session has ended.
    pub fn is_finished(&self) -> (r: bool)
        ensures
            r == self.spec_finished(),
    {
        self.finished
    }

    /// The consumer asked to stop: no further bytes are sent to it.
    pub fn on_stop(&mut self)
        ensures
            final(self).spec_finished(),
            final(self).spec_sent() == old(self).spec_sent(),
    {
        self.finished = true;
    }

    /// Decide what to answer after reading `n` bytes at the current
    /// position of a recording of `total_size` bytes, where `active` says
    /// whether the recording is still being written.  A chunk's `offset` is
    /// the cumulative bytes sent including it; EOF is sent exactly once,
    /// only when the recording is over and fully drained.
    pub fn on_read(&mut self, n: usize, total_size: usize, active: bool) -> (r: PullAction)
        requires
            !old(self).spec_finished(),
            old(self).spec_sent() + n <= usize::MAX,
        ensures
            r is Wait <==> (n == 0 && active),
            r is SendEof <==> (n == 0 && !active),
            r matches PullAction::SendChunk { metadata } ==> {
                &&& n > 0
                &&& metadata.chunk_size == n
                &&& metadata.offset == old(self).spec_sent() + n
                &&& metadata.total_size == total_size
                &&& final(self).spec_sent() == old(self).spec_sent() + n
                &&& !final(self).spec_finished()
            },
            n > 0 ==> r is SendChunk,
            r is Wait ==> *final(self) == *old(self),
            r is SendEof ==> final(self).spec_finished() && final(self).spec_sent() == old(
                self,
            ).spec_sent(),
    {
        if n == 0 {
            if active {
                PullAction::Wait
            } else {
                self.finished = true;
                PullAction::SendEof
            }
        } else {
            self.sent = self.sent + n;
            PullAction::SendChunk {
                metadata: Metadata { chunk_size: n, offset: self.sent, total_size },
            }
        }
    }
}

/// Whether a tail-following reader should hold the connection open and wait
/// for more bytes instead of reporting what it has: nothing new arrived, or
/// less than a full request's worth, so the writer may still be appending.
pub fn tail_read_needs_wait(filled_before: usize, filled_after: usize, max_request: usize) -> (r:
    bool)
    ensures
        r == (filled_after == 0 || filled_after == filled_before || filled_after < max_request),
{
    filled_after == 0 || filled_after == filled_before || filled_after < max_request
}

} // verus!
