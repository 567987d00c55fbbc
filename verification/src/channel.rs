//! The per-subscriber byte channel: bounded, first-in first-out, one
//! producer and one consumer.
//!
//! The producer — the subscriber writer, on the follower's thread — stages
//! bytes and hands a whole staged run over on flush; the bound is the
//! design's flow control against slow consumers.  The consumer — the
//! transport's reader — receives runs and drains them in order.  Everything
//! ever read is a prefix of everything ever flushed, in the exact order it
//! was produced.

use vstd::prelude::*;

verus! {

/// Why the producer's flush was refused.
#[derive(Debug, Clone, Copy, PartialEq, Eq, Structural)]
pub enum ChannelError {
    /// The channel holds its full bound of undelivered runs: backpressure.
    Full,
    /// The consumer is gone; the producer should be removed.
    Closed,
}

/// The bytes of a run of chunks, in order.
pub open spec fn concat_chunks(q: Seq<Vec<u8>>) -> Seq<u8>
    decreases q.len(),
{
    if q.len() == 0 {
        Seq::<u8>::empty()
    } else {
        q.first()@ + concat_chunks(q.drop_first())
    }
}

/// Appending one chunk appends its bytes.
proof fn lemma_concat_snoc(q: Seq<Vec<u8>>, c: Vec<u8>)
    ensures
        concat_chunks(q.push(c)) == concat_chunks(q) + c@,
    decreases q.len(),
{
    reveal_with_fuel(concat_chunks, 3);
    if q.len() == 0 {
        assert(q.push(c).drop_first() =~= Seq::<Vec<u8>>::empty());
        assert(q.push(c).first() == c);
        assert(c@ + Seq::<u8>::empty() =~= c@);
        assert(Seq::<u8>::empty() + c@ =~= c@);
    } else {
        lemma_concat_snoc(q.drop_first(), c);
        assert(q.push(c).drop_first() =~= q.drop_first().push(c));
        assert(q.push(c).first() == q.first());
        assert(q.first()@ + (concat_chunks(q.drop_first()) + c@) =~= (q.first()@ + concat_chunks(
            q.drop_first(),
        )) + c@);
    }
}

/// A bounded single-producer, single-consumer byte channel.
pub struct ByteChannel {
    staged: Vec<u8>,
    queue: Vec<Vec<u8>>,
    readable: Vec<u8>,
    consumed: Ghost<Seq<u8>>,
    bound: usize,
    closed: bool,
}

impl ByteChannel {
    /// Bytes the producer has written but not yet flushed.
    pub closed spec fn spec_staged(self) -> Seq<u8> {
        self.staged@
    }

    /// Bytes flushed and not yet received, oldest first.
    pub closed spec fn spec_in_flight(self) -> Seq<u8> {
        concat_chunks(self.queue@)
    }

    /// Bytes received and not yet read.
    pub closed spec fn spec_readable(self) -> Seq<u8> {
        self.readable@
    }

    /// Every byte the consumer has ever read.
    pub closed spec fn spec_consumed(self) -> Seq<u8> {
        self.consumed@
    }

    /// Every byte ever flushed, in order: what was read, what is waiting at
    /// the consumer, and what is still in flight.
    pub open spec fn spec_flushed(self) -> Seq<u8> {
        self.spec_consumed() + self.spec_readable() + self.spec_in_flight()
    }

    /// How many undelivered runs the channel may hold.
    pub closed spec fn spec_bound(self) -> int {
        self.bound as int
    }

    /// Whether the consumer is gone.
    pub closed spec fn spec_closed(self) -> bool {
        self.closed
    }

    /// How many runs are waiting.
    pub closed spec fn spec_queue_len(self) -> int {
        self.queue@.len() as int
    }

    /// An open channel holding up to `bound` undelivered runs.
    pub fn new(bound: usize) -> (r: ByteChannel)
        requires
            bound >= 1,
        ensures
            r.spec_staged() == Seq::<u8>::empty(),
            r.spec_flushed() == Seq::<u8>::empty(),
            r.spec_consumed() == Seq::<u8>::empty(),
            r.spec_readable() == Seq::<u8>::empty(),
            r.spec_bound() == bound,
            !r.spec_closed(),
            r.spec_queue_len() == 0,
    {
        let r = ByteChannel {
            staged: Vec::new(),
            queue: Vec::new(),
            readable: Vec::new(),
            consumed: Ghost(Seq::empty()),
            bound,
            closed: false,
        };
        proof {
            assert(r.queue@ =~= Seq::<Vec<u8>>::empty());
            assert(r.spec_flushed() =~= Seq::<u8>::empty());
        }
        r
    }

    /// The producer stages more bytes.
    pub fn write(&mut self, bytes: &Vec<u8>)
        ensures
            final(self).spec_staged() == old(self).spec_staged() + bytes@,
            final(self).spec_flushed() == old(self).spec_flushed(),
            final(self).spec_consumed() == old(self).spec_consumed(),
            final(self).spec_readable() == old(self).spec_readable(),
            final(self).spec_bound() == old(self).spec_bound(),
            final(self).spec_closed() == old(self).spec_closed(),
            final(self).spec_queue_len() == old(self).spec_queue_len(),
    {
        let mut i: usize = 0;
        while i < bytes.len()
            invariant
                0 <= i <= bytes.len(),
                self.staged@ =~= old(self).staged@ + bytes@.subrange(0, i as int),
                self.queue == old(self).queue,
                self.readable == old(self).readable,
                self.consumed == old(self).consumed,
                self.bound == old(self).bound,
                self.closed == old(self).closed,
            decreases bytes.len() - i,
        {
            self.staged.push(bytes[i]);
            i = i + 1;
        }
        proof {
            assert(self.staged@ =~= old(self).staged@ + bytes@);
        }
    }

    /// The producer hands its staged bytes over as one run.  Refused,
    /// changing nothing, exactly when the consumer is gone or the channel
    /// already holds its full bound of undelivered runs.
    pub fn flush(&mut self) -> (r: Result<(), ChannelError>)
        ensures
            match r {
                Ok(()) => {
                    &&& !old(self).spec_closed()
                    &&& old(self).spec_queue_len() < old(self).spec_bound()
                    &&& final(self).spec_staged() == Seq::<u8>::empty()
                    &&& final(self).spec_flushed() == old(self).spec_flushed() + old(
                        self,
                    ).spec_staged()
                    &&& final(self).spec_consumed() == old(self).spec_consumed()
                    &&& final(self).spec_readable() == old(self).spec_readable()
                    &&& final(self).spec_queue_len() == old(self).spec_queue_len() + 1
                },
                Err(ChannelError::Closed) => old(self).spec_closed() && *final(self) == *old(
                    self,
                ),
                Err(ChannelError::Full) => {
                    &&& !old(self).spec_closed()
                    &&& old(self).spec_queue_len() >= old(self).spec_bound()
                    &&& *final(self) == *old(self)
                },
            },
            final(self).spec_bound() == old(self).spec_bound(),
            final(self).spec_closed() == old(self).spec_closed(),
    {
        if self.closed {
            return Err(ChannelError::Closed);
        }
        if self.queue.len() >= self.bound {
            return Err(ChannelError::Full);
        }
        let mut run: Vec<u8> = Vec::new();
        std::mem::swap(&mut run, &mut self.staged);
        let ghost pre_queue = self.queue@;
        proof {
            lemma_concat_snoc(pre_queue, run);
        }
        self.queue.push(run);
        proof {
            assert(self.staged@ =~= Seq::<u8>::empty());
            assert(self.spec_flushed() =~= old(self).spec_flushed() + old(self).spec_staged());
        }
        Ok(())
    }

    /// The consumer went away: every later flush is refused.
    pub fn close(&mut self)
        ensures
            final(self).spec_closed(),
            final(self).spec_staged() == old(self).spec_staged(),
            final(self).spec_flushed() == old(self).spec_flushed(),
            final(self).spec_consumed() == old(self).spec_consumed(),
            final(self).spec_readable() == old(self).spec_readable(),
            final(self).spec_bound() == old(self).spec_bound(),
    {
        self.closed = true;
    }

    /// The consumer takes delivery of the oldest run, if one is waiting.
    pub fn recv(&mut self) -> (r: bool)
        ensures
            r == (old(self).spec_queue_len() > 0),
            final(self).spec_flushed() == old(self).spec_flushed(),
            final(self).spec_consumed() == old(self).spec_consumed(),
            final(self).spec_staged() == old(self).spec_staged(),
            final(self).spec_bound() == old(self).spec_bound(),
            final(self).spec_closed() == old(self).spec_closed(),
            r ==> final(self).spec_queue_len() == old(self).spec_queue_len() - 1,
            !r ==> *final(self) == *old(self),
    {
        if self.queue.len() == 0 {
            return false;
        }
        let run = self.queue.remove(0);
        let ghost pre_readable = self.readable@;
        let mut i: usize = 0;
        while i < run.len()
            invariant
                0 <= i <= run.len(),
                self.readable@ =~= pre_readable + run@.subrange(0, i as int),
                pre_readable == old(self).readable@,
                self.queue@ == old(self).queue@.drop_first(),
                run == old(self).queue@[0],
                old(self).queue@.len() > 0,
                self.consumed == old(self).consumed,
                self.staged == old(self).staged,
                self.bound == old(self).bound,
                self.closed == old(self).closed,
            decreases run.len() - i,
        {
            self.readable.push(run[i]);
            i = i + 1;
        }
        proof {
            assert(old(self).queue@.remove(0) =~= old(self).queue@.drop_first());
            assert(self.readable@ =~= pre_readable + run@);
            assert(self.spec_flushed() =~= old(self).spec_flushed());
        }
        true
    }

    /// The consumer reads up to `n` delivered bytes, in order.
    pub fn read(&mut self, n: usize) -> (r: Vec<u8>)
        ensures
            r@ == old(self).spec_readable().take(
                if n <= old(self).spec_readable().len() {
                    n as int
                } else {
                    old(self).spec_readable().len() as int
                },
            ),
            final(self).spec_readable() == old(self).spec_readable().skip(r@.len() as int),
            final(self).spec_consumed() == old(self).spec_consumed() + r@,
            final(self).spec_flushed() == old(self).spec_flushed(),
            final(self).spec_staged() == old(self).spec_staged(),
            final(self).spec_bound() == old(self).spec_bound(),
            final(self).spec_closed() == old(self).spec_closed(),
            final(self).spec_queue_len() == old(self).spec_queue_len(),
    {
        let k: usize = if n <= self.readable.len() {
            n
        } else {
            self.readable.len()
        };
        let rest = self.readable.split_off(k);
        let mut head = rest;
        std::mem::swap(&mut head, &mut self.readable);
        proof {
            self.consumed@ = self.consumed@ + head@;
            assert(self.spec_flushed() =~= old(self).spec_flushed());
            assert(head@ =~= old(self).spec_readable().take(k as int));
            assert(self.readable@ =~= old(self).spec_readable().skip(k as int));
        }
        head
    }

    /// Everything ever read came out in exactly the order it was flushed:
    /// the consumed bytes are a prefix of the flushed bytes.
    pub proof fn lemma_fifo(self)
        ensures
            self.spec_consumed() == self.spec_flushed().take(self.spec_consumed().len() as int),
    {
        assert(self.spec_flushed().take(self.spec_consumed().len() as int) =~= self.spec_consumed());
    }
}

} // verus!
