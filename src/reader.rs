//! The decisions of the read loop. The loop itself, which blocks on the
//! server's output and sleeps between attempts, hands each outcome of a read
//! to a `FrameReader` and does what it answers: decode what has arrived,
//! read again, wait and retry, or stop.
use crate::frame::{lemma_decode_within, decoded_of, DecodeError, Decoded, Frame, ProtocolError};
use crate::message::{decode, decode_spec};
use vstd::prelude::*;

verus! {

/// How a failed read is retried: after a delay that starts at
/// `base_delay_ms` and doubles with each further failure, up to
/// `max_delay_ms`, for at most `max_attempts` retries in a row.
#[derive(PartialEq, Eq, Structural, Clone, Copy, Debug)]
pub struct RetryPolicy {
    pub max_attempts: u32,
    pub base_delay_ms: u64,
    pub max_delay_ms: u64,
}

/// The delay before retry number `attempt` (counted from 0): the base delay
/// doubled `attempt` times, capped at the largest delay.
pub open spec fn backoff(base: nat, cap: nat, attempt: nat) -> nat
    decreases attempt,
{
    if attempt == 0 {
        if base <= cap {
            base
        } else {
            cap
        }
    } else {
        let d = 2 * backoff(base, cap, (attempt - 1) as nat);
        if d <= cap {
            d
        } else {
            cap
        }
    }
}

proof fn lemma_backoff_bounded(base: nat, cap: nat, attempt: nat)
    ensures
        backoff(base, cap, attempt) <= cap,
    decreases attempt,
{
    if attempt > 0 {
        lemma_backoff_bounded(base, cap, (attempt - 1) as nat);
    }
}

impl RetryPolicy {
    /// The delay before retry number `attempt`, counted from 0.
    pub fn delay_ms(&self, attempt: u32) -> (r: u64)
        ensures
            r == backoff(self.base_delay_ms as nat, self.max_delay_ms as nat, attempt as nat),
    {
        let cap = self.max_delay_ms;
        let mut d: u64 = if self.base_delay_ms <= cap {
            self.base_delay_ms
        } else {
            cap
        };
        let mut k: u32 = 0;
        while k < attempt
            invariant
                k <= attempt,
                cap == self.max_delay_ms,
                d == backoff(self.base_delay_ms as nat, cap as nat, k as nat),
            decreases attempt - k,
        {
            proof {
                lemma_backoff_bounded(self.base_delay_ms as nat, cap as nat, k as nat);
            }
            d = if d <= cap / 2 {
                2 * d
            } else {
                cap
            };
            k = k + 1;
        }
        d
    }
}

/// What the read loop does after a failed read.
#[derive(PartialEq, Eq, Structural, Clone, Copy, Debug)]
pub enum ReadAction {
    /// Wait this long, then read again.
    Retry { delay_ms: u64 },
    /// The transport is closed: stop reading.
    Stop,
}

/// The state of the read loop: the bytes received and not yet decoded, the
/// failed reads since the last success, and whether the transport is closed.
pub struct FrameReader {
    pub buffer: Vec<u8>,
    pub failures: u32,
    pub closed: bool,
    pub policy: RetryPolicy,
}

impl FrameReader {
    /// A reader with nothing received, that retries by `policy`.
    pub fn new(policy: RetryPolicy) -> (r: FrameReader)
        ensures
            r.buffer@.len() == 0,
            r.failures == 0,
            !r.closed,
            r.policy == policy,
    {
        FrameReader { buffer: Vec::new(), failures: 0, closed: false, policy }
    }

    /// Whether the transport is closed for good.
    pub fn is_closed(&self) -> (r: bool)
        ensures
            r == self.closed,
    {
        self.closed
    }

    /// Takes in the bytes of a successful read: they join what is waiting
    /// to be decoded, and the count of failed reads starts again.
    pub fn receive(&mut self, bytes: &[u8])
        ensures
            final(self).buffer@ == old(self).buffer@ + bytes@,
            final(self).failures == 0,
            final(self).closed == old(self).closed,
            final(self).policy == old(self).policy,
    {
        let mut i: usize = 0;
        let ghost start = self.buffer@;
        while i < bytes.len()
            invariant
                i <= bytes@.len(),
                self.buffer@ == start + bytes@.subrange(0, i as int),
                self.closed == old(self).closed,
                self.policy == old(self).policy,
            decreases bytes.len() - i,
        {
            self.buffer.push(bytes[i]);
            assert(bytes@.subrange(0, i + 1) =~= bytes@.subrange(0, i as int).push(
                bytes@[i as int],
            ));
            i = i + 1;
        }
        assert(bytes@.subrange(0, i as int) =~= bytes@);
        self.failures = 0;
    }

    /// Drops the first `n` bytes waiting to be decoded.
    fn consume(&mut self, n: usize)
        requires
            n <= old(self).buffer@.len(),
        ensures
            final(self).buffer@ == old(self).buffer@.subrange(n as int, old(self).buffer@.len() as int),
            final(self).failures == old(self).failures,
            final(self).closed == old(self).closed,
            final(self).policy == old(self).policy,
    {
        let mut rest: Vec<u8> = Vec::new();
        let mut i: usize = n;
        while i < self.buffer.len()
            invariant
                n <= i <= self.buffer@.len(),
                rest@ == self.buffer@.subrange(n as int, i as int),
            decreases self.buffer.len() - i,
        {
            rest.push(self.buffer[i]);
            assert(self.buffer@.subrange(n as int, i + 1) =~= self.buffer@.subrange(
                n as int,
                i as int,
            ).push(self.buffer@[i as int]));
            i = i + 1;
        }
        self.buffer = rest;
    }

    /// The next message frame among the bytes received, if they hold a
    /// whole one. A frame, or a refused one, is taken out of what waits to be
    /// decoded; where more bytes are needed, nothing is taken.
    pub fn next_frame(&mut self) -> (r: Option<Result<Frame, ProtocolError>>)
        ensures
            final(self).failures == old(self).failures,
            final(self).closed == old(self).closed,
            final(self).policy == old(self).policy,
            match decode_spec(old(self).buffer@, 0) {
                Decoded::Incomplete => r is None && final(self).buffer@ == old(self).buffer@,
                Decoded::Malformed(e, p) => r == Some(Err::<Frame, ProtocolError>(e))
                    && final(self).buffer@ == old(self).buffer@.subrange(
                    p,
                    old(self).buffer@.len() as int,
                ),
                Decoded::Complete(content_type, body, n) => r matches Some(Ok(f))
                    && decoded_of(Ok(f)) == Decoded::Complete(content_type, body, n)
                    && final(self).buffer@ == old(self).buffer@.subrange(
                    n,
                    old(self).buffer@.len() as int,
                ),
            },
    {
        let r = decode(&self.buffer, 0);
        proof {
            lemma_decoded_within(self.buffer@, r);
        }
        match r {
            Ok(f) => {
                self.consume(f.next);
                Some(Ok(f))
            },
            Err(DecodeError::Incomplete) => None,
            Err(DecodeError::Protocol { error, resume }) => {
                self.consume(resume);
                Some(Err(error))
            },
        }
    }

    /// Decides what follows a failed read. Where the loop was asked to stop,
    /// or the failures in a row exceed the policy's attempts, the transport
    /// is closed; otherwise the loop waits by the policy and reads again.
    pub fn read_failed(&mut self, cancelled: bool) -> (r: ReadAction)
        ensures
            final(self).buffer@ == old(self).buffer@,
            final(self).policy == old(self).policy,
            cancelled || old(self).closed || old(self).failures >= old(self).policy.max_attempts
                ==> r == ReadAction::Stop && final(self).closed,
            !(cancelled || old(self).closed || old(self).failures >= old(self).policy.max_attempts)
                ==> r == (ReadAction::Retry {
                delay_ms: backoff(
                    old(self).policy.base_delay_ms as nat,
                    old(self).policy.max_delay_ms as nat,
                    old(self).failures as nat,
                ) as u64,
            }) && final(self).failures == old(self).failures + 1 && !final(self).closed,
    {
        if cancelled || self.closed || self.failures >= self.policy.max_attempts {
            self.closed = true;
            return ReadAction::Stop;
        }
        let delay = self.policy.delay_ms(self.failures);
        self.failures = self.failures + 1;
        ReadAction::Retry { delay_ms: delay }
    }

    /// The server's output has ended: the transport is closed.
    pub fn end_of_stream(&mut self)
        ensures
            final(self).buffer@ == old(self).buffer@,
            final(self).failures == old(self).failures,
            final(self).policy == old(self).policy,
            final(self).closed,
    {
        self.closed = true;
    }
}

/// A position that decoding resumes at never lies past the stream's end.
proof fn lemma_decoded_within(s: Seq<u8>, r: Result<Frame, DecodeError>)
    requires
        decoded_of(r) == decode_spec(s, 0),
    ensures
        r matches Ok(f) ==> f.next <= s.len(),
        r matches Err(DecodeError::Protocol { resume, .. }) ==> resume <= s.len(),
{
    lemma_decode_within(s, 0);
}

} // verus!
