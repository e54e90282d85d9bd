use vstd::prelude::*;

verus! {

/// Token of the listening socket.
pub const SERVER_TOKEN: usize = 0;

/// Token of the cross-thread waker.
pub const WAKER_TOKEN: usize = 1;

/// First token handed to an accepted connection.
pub const CONNECTION_START_ID: usize = 1000;

/// Number of worker threads that run the processing function.
pub const WORKER_POOL_SIZE: usize = 12;

/// What a readiness event's token stands for.
#[derive(PartialEq, Eq, Structural, Clone, Copy, Debug)]
pub enum EventSource {
    Listener,
    Wake,
    Connection(usize),
    Unknown,
}

pub open spec fn source_of(token: usize) -> EventSource {
    if token == SERVER_TOKEN {
        EventSource::Listener
    } else if token == WAKER_TOKEN {
        EventSource::Wake
    } else if token >= CONNECTION_START_ID {
        EventSource::Connection(token)
    } else {
        EventSource::Unknown
    }
}

/// Sorts a readiness event by its token into the three disjoint ranges.
pub fn classify(token: usize) -> (r: EventSource)
    ensures
        r == source_of(token),
{
    if token == SERVER_TOKEN {
        EventSource::Listener
    } else if token == WAKER_TOKEN {
        EventSource::Wake
    } else if token >= CONNECTION_START_ID {
        EventSource::Connection(token)
    } else {
        EventSource::Unknown
    }
}

/// The classes of I/O error that the reactor tells apart.
#[derive(PartialEq, Eq, Structural, Clone, Copy, Debug)]
pub enum IoErrorKind {
    WouldBlock,
    Interrupted,
    Other,
}

/// What a non-blocking drain loop (accept or read) does next.
#[derive(PartialEq, Eq, Structural, Clone, Copy, Debug)]
pub enum LoopStep {
    /// Call again.
    Continue,
    /// Nothing more is pending: leave the loop.
    Stop,
    /// The error ends the reactor.
    Fatal,
}

pub open spec fn error_step(kind: IoErrorKind) -> LoopStep {
    match kind {
        IoErrorKind::WouldBlock => LoopStep::Stop,
        IoErrorKind::Interrupted => LoopStep::Continue,
        IoErrorKind::Other => LoopStep::Fatal,
    }
}

/// Would-block ends a drain loop, an interrupted call is retried, and any
/// other error is fatal.
pub fn step_after_error(kind: IoErrorKind) -> (r: LoopStep)
    ensures
        r == error_step(kind),
{
    match kind {
        IoErrorKind::WouldBlock => LoopStep::Stop,
        IoErrorKind::Interrupted => LoopStep::Continue,
        IoErrorKind::Other => LoopStep::Fatal,
    }
}

/// Bytes collected by one read drain of a connection, and whether the peer
/// closed its side during it.
pub struct ReadDrain {
    buf: Vec<u8>,
    eof: bool,
}

impl ReadDrain {
    pub closed spec fn bytes(&self) -> Seq<u8> {
        self.buf@
    }

    pub closed spec fn saw_eof(&self) -> bool {
        self.eof
    }

    pub fn new() -> (r: Self)
        ensures
            r.bytes() == Seq::<u8>::empty(),
            !r.saw_eof(),
    {
        ReadDrain { buf: Vec::new(), eof: false }
    }

    /// Takes a successful read of `n` bytes into `chunk`. A read of zero
    /// bytes is the peer's half-close and ends the drain; otherwise exactly
    /// the `n` bytes read are kept and the drain goes on.
    pub fn on_read(&mut self, chunk: &[u8], n: usize) -> (step: LoopStep)
        requires
            n <= chunk@.len(),
        ensures
            n == 0 ==> step == LoopStep::Stop && final(self).saw_eof() && final(self).bytes()
                == old(self).bytes(),
            n > 0 ==> step == LoopStep::Continue && final(self).saw_eof() == old(self).saw_eof()
                && final(self).bytes() == old(self).bytes() + chunk@.subrange(0, n as int),
    {
        if n == 0 {
            self.eof = true;
            return LoopStep::Stop;
        }
        let ghost start = self.buf@;
        let mut i: usize = 0;
        while i < n
            invariant
                n <= chunk@.len(),
                0 <= i <= n,
                self.buf@ == start + chunk@.subrange(0, i as int),
                self.eof == old(self).eof,
            decreases n - i,
        {
            self.buf.push(chunk[i]);
            i = i + 1;
            assert(chunk@.subrange(0, i as int) == chunk@.subrange(0, i - 1).push(chunk@[i - 1]));
        }
        LoopStep::Continue
    }

    /// Hands out the collected bytes and the half-close flag.
    pub fn finish(self) -> (r: (Vec<u8>, bool))
        ensures
            r.0@ == self.bytes(),
            r.1 == self.saw_eof(),
    {
        (self.buf, self.eof)
    }
}

/// The reference processing function: the response is the request, byte for
/// byte.
pub fn process(buf: &Vec<u8>) -> (r: Vec<u8>)
    ensures
        r@ == buf@,
{
    let mut out: Vec<u8> = Vec::with_capacity(buf.len());
    let mut i: usize = 0;
    while i < buf.len()
        invariant
            0 <= i <= buf@.len(),
            out@ == buf@.subrange(0, i as int),
        decreases buf@.len() - i,
    {
        out.push(buf[i]);
        i = i + 1;
        assert(buf@.subrange(0, i as int) == buf@.subrange(0, i - 1).push(buf@[i - 1]));
    }
    assert(out@ == buf@.subrange(0, buf@.len() as int));
    out
}

} // verus!
