//! Incremental accumulation of a byte source into a growing buffer.
//!
//! The accumulation is a state machine driven from outside: the driver asks
//! for the free window, performs one read into it, and reports what the source
//! did. A read that has to wait is reported as such and resumed later, without
//! redoing earlier reads.
use vstd::prelude::*;

verus! {

/// Number of bytes added to the destination each time it runs full.
pub const GROWTH_STEP: usize = 32;

/// A failure reported by a byte source.
#[derive(Clone, Copy, Debug, PartialEq, Eq, Structural)]
pub enum ReadError {
    /// The underlying store could not be read.
    StorageFault,
    /// The operation was given up before the source finished.
    Cancelled,
}

/// Where an accumulation stands.
#[derive(Clone, Copy, Debug, PartialEq, Eq, Structural)]
pub enum ReaderState {
    /// No read is outstanding; the next step asks for a window.
    Idle,
    /// A window was handed out and the source has not answered yet.
    AwaitingChunk,
    /// The source reported its end.
    Done,
    /// The source reported a failure.
    Faulted,
}

/// What the source did with the window it was given.
pub enum ReadEvent {
    /// The source is not ready; the same window stays outstanding.
    Pending,
    /// The source wrote these bytes at the start of the window. An empty
    /// chunk is the source's end.
    Chunk(Vec<u8>),
    /// The source has no more bytes.
    End,
    /// The source failed.
    Fault(ReadError),
}

/// What the driver does next.
#[derive(Clone, Copy, Debug, PartialEq, Eq, Structural)]
pub enum Progress {
    /// Ask for a new window and read again.
    Continue,
    /// The source was not ready: read into the same window later.
    Waiting,
    /// Everything was read; the number of bytes added.
    Complete(usize),
    /// The source failed; the destination is rolled back.
    Failed(ReadError),
}

/// An accumulation of a source's bytes at the end of a destination buffer.
pub struct ReadToEnd {
    buf: Vec<u8>,
    start_len: usize,
    len: usize,
    state: ReaderState,
}

impl ReadToEnd {
    /// The destination's contents before the accumulation started.
    pub closed spec fn initial(&self) -> Seq<u8> {
        self.buf@.subrange(0, self.start_len as int)
    }

    /// The destination's contents followed by every byte read so far.
    pub closed spec fn filled(&self) -> Seq<u8> {
        self.buf@.subrange(0, self.len as int)
    }

    /// Free bytes after what has been filled.
    pub closed spec fn spare(&self) -> int {
        self.buf@.len() - self.len
    }

    /// Length of the allocated destination, filled or not.
    pub closed spec fn extent(&self) -> int {
        self.buf@.len() as int
    }

    pub closed spec fn spec_state(&self) -> ReaderState {
        self.state
    }

    /// What the caller sees of the destination: the bytes read once the
    /// source has ended, and the initial contents otherwise.
    pub open spec fn visible(&self) -> Seq<u8> {
        if self.spec_state() == ReaderState::Done {
            self.filled()
        } else {
            self.initial()
        }
    }

    pub closed spec fn wf(&self) -> bool {
        &&& self.start_len <= self.len <= self.buf@.len()
    }

    /// Bytes added by the source so far.
    pub open spec fn added(&self) -> Seq<u8> {
        self.filled().subrange(self.initial().len() as int, self.filled().len() as int)
    }

    /// Starts accumulating at the end of `buf`.
    pub fn new(buf: Vec<u8>) -> (r: Self)
        ensures
            r.wf(),
            r.initial() == buf@,
            r.filled() == buf@,
            r.spare() == 0,
            r.spec_state() == ReaderState::Idle,
    {
        let start_len = buf.len();
        let r = ReadToEnd { buf, start_len, len: start_len, state: ReaderState::Idle };
        assert(r.buf@.subrange(0, start_len as int) =~= buf@);
        r
    }

    pub fn state(&self) -> (r: ReaderState)
        ensures
            r == self.spec_state(),
    {
        self.state
    }

    /// Free bytes after what has been filled.
    pub fn spare_len(&self) -> (r: usize)
        requires
            self.wf(),
        ensures
            r == self.spare(),
    {
        self.buf.len() - self.len
    }

    /// Length of the allocated destination, filled or not.
    pub fn allocated_len(&self) -> (r: usize)
        ensures
            r == self.extent(),
    {
        self.buf.len()
    }

    /// Number of bytes accumulated so far, not counting the initial contents.
    pub fn read_so_far(&self) -> (r: usize)
        requires
            self.wf(),
        ensures
            r == self.filled().len() - self.initial().len(),
    {
        self.len - self.start_len
    }

    /// Hands out the free window for the next read. When the destination is
    /// full it grows by [`GROWTH_STEP`] zeroed bytes first; otherwise it is
    /// left as it is. Returns the window's length, which is never zero.
    pub fn window(&mut self) -> (r: usize)
        requires
            old(self).wf(),
            old(self).spec_state() == ReaderState::Idle || old(self).spec_state()
                == ReaderState::AwaitingChunk,
            old(self).spare() > 0 || old(self).extent() + GROWTH_STEP <= usize::MAX,
        ensures
            final(self).wf(),
            final(self).initial() == old(self).initial(),
            final(self).filled() == old(self).filled(),
            final(self).spec_state() == ReaderState::AwaitingChunk,
            old(self).spare() == 0 ==> final(self).spare() == GROWTH_STEP,
            old(self).spare() > 0 ==> final(self).spare() == old(self).spare(),
            r as int == final(self).spare(),
            r > 0,
    {
        if self.len == self.buf.len() {
            let ghost before = self.buf@;
            let mut k: usize = 0;
            while k < GROWTH_STEP
                invariant
                    k <= GROWTH_STEP,
                    self.buf@.len() == before.len() + k,
                    self.buf@.subrange(0, before.len() as int) == before,
                    self.start_len == old(self).start_len,
                    self.len == old(self).len,
                    self.state == old(self).state,
                    self.start_len <= self.len == before.len(),
                    before.len() + GROWTH_STEP <= usize::MAX,
                decreases GROWTH_STEP - k,
            {
                let ghost prev = self.buf@;
                self.buf.push(0);
                assert(self.buf@.subrange(0, before.len() as int) =~= prev.subrange(
                    0,
                    before.len() as int,
                ));
                k = k + 1;
            }
        }
        self.state = ReaderState::AwaitingChunk;
        proof {
            assert(self.buf@.subrange(0, self.start_len as int) =~= old(
                self,
            ).buf@.subrange(0, self.start_len as int));
            assert(self.buf@.subrange(0, self.len as int) =~= old(self).buf@.subrange(
                0,
                self.len as int,
            ));
        }
        self.buf.len() - self.len
    }

    /// Takes in what the source did with the outstanding window.
    pub fn advance(&mut self, event: ReadEvent) -> (r: Progress)
        requires
            old(self).wf(),
            old(self).spec_state() == ReaderState::AwaitingChunk,
            event matches ReadEvent::Chunk(c) ==> c@.len() <= old(self).spare(),
        ensures
            final(self).wf(),
            final(self).initial() == old(self).initial(),
            match event {
                ReadEvent::Pending => {
                    &&& r == Progress::Waiting
                    &&& *final(self) == *old(self)
                },
                ReadEvent::Chunk(c) => if c@.len() == 0 {
                    &&& final(self).filled() == old(self).filled()
                    &&& final(self).spec_state() == ReaderState::Done
                    &&& r == Progress::Complete(
                        (old(self).filled().len() - old(self).initial().len()) as usize,
                    )
                } else {
                    &&& final(self).filled() == old(self).filled() + c@
                    &&& final(self).spare() == old(self).spare() - c@.len()
                    &&& final(self).extent() == old(self).extent()
                    &&& final(self).spec_state() == ReaderState::Idle
                    &&& r == Progress::Continue
                },
                ReadEvent::End => {
                    &&& final(self).filled() == old(self).filled()
                    &&& final(self).spec_state() == ReaderState::Done
                    &&& r == Progress::Complete(
                        (old(self).filled().len() - old(self).initial().len()) as usize,
                    )
                },
                ReadEvent::Fault(e) => {
                    &&& final(self).filled() == old(self).filled()
                    &&& final(self).spec_state() == ReaderState::Faulted
                    &&& r == Progress::Failed(e)
                },
            },
    {
        match event {
            ReadEvent::Pending => Progress::Waiting,
            ReadEvent::Chunk(c) => {
                if c.len() == 0 {
                    self.state = ReaderState::Done;
                    Progress::Complete(self.len - self.start_len)
                } else {
                    let ghost before = self.buf@;
                    let start = self.len;
                    let extent = self.buf.len();
                    let mut k: usize = 0;
                    while k < c.len()
                        invariant
                            k <= c@.len(),
                            start + c@.len() <= before.len(),
                            self.buf@.len() == before.len(),
                            before.len() == extent,
                            self.start_len == old(self).start_len,
                            self.state == old(self).state,
                            self.start_len <= start,
                            self.len == start,
                            forall|i: int| 0 <= i < start ==> self.buf@[i] == before[i],
                            forall|i: int| 0 <= i < k ==> self.buf@[start + i] == c@[i],
                        decreases c@.len() - k,
                    {
                        self.buf.set(start + k, c[k]);
                        k = k + 1;
                    }
                    self.len = start + c.len();
                    self.state = ReaderState::Idle;
                    proof {
                        assert(self.buf@.subrange(0, self.start_len as int) =~= before.subrange(
                            0,
                            self.start_len as int,
                        ));
                        assert(self.buf@.subrange(0, self.len as int) =~= before.subrange(
                            0,
                            start as int,
                        ) + c@);
                    }
                    Progress::Continue
                }
            },
            ReadEvent::End => {
                self.state = ReaderState::Done;
                Progress::Complete(self.len - self.start_len)
            },
            ReadEvent::Fault(e) => {
                self.state = ReaderState::Faulted;
                Progress::Failed(e)
            },
        }
    }

    /// Gives the destination back as the caller may see it: with the bytes
    /// read once the source has ended, and rolled back to its initial
    /// contents in every other state (failure or cancellation). No byte of
    /// the unfilled window is ever part of it.
    pub fn into_buffer(self) -> (r: Vec<u8>)
        requires
            self.wf(),
        ensures
            r@ == self.visible(),
    {
        let mut buf = self.buf;
        if self.state == ReaderState::Done {
            buf.truncate(self.len);
        } else {
            buf.truncate(self.start_len);
        }
        buf
    }
}

/// One turn of a scripted byte source.
pub enum SourceStep {
    /// The source is not ready this turn.
    Pending,
    /// The source has these bytes to give; it hands them out in pieces no
    /// larger than the window it is offered.
    Bytes(Vec<u8>),
}

pub open spec fn step_bytes(step: SourceStep) -> Seq<u8> {
    match step {
        SourceStep::Pending => Seq::empty(),
        SourceStep::Bytes(b) => b@,
    }
}

/// Every byte a scripted source gives, in order.
pub open spec fn source_bytes(steps: Seq<SourceStep>) -> Seq<u8>
    decreases steps.len(),
{
    if steps.len() == 0 {
        Seq::empty()
    } else {
        source_bytes(steps.drop_last()) + step_bytes(steps.last())
    }
}

proof fn lemma_source_bytes_step(steps: Seq<SourceStep>, i: int)
    requires
        0 <= i < steps.len(),
    ensures
        source_bytes(steps.take(i + 1)) == source_bytes(steps.take(i)) + step_bytes(steps[i]),
{
    assert(steps.take(i + 1).drop_last() =~= steps.take(i));
}

proof fn lemma_source_bytes_prefix_len(steps: Seq<SourceStep>, i: int)
    requires
        0 <= i <= steps.len(),
    ensures
        source_bytes(steps.take(i)).len() <= source_bytes(steps).len(),
    decreases steps.len() - i,
{
    if i == steps.len() {
        assert(steps.take(i) =~= steps);
    } else {
        lemma_source_bytes_step(steps, i);
        lemma_source_bytes_prefix_len(steps, i + 1);
    }
}

/// Reads a scripted source to its end, appending what it gives to `buf`.
/// `end` is how the source finishes once its steps are used up: cleanly, or
/// with a failure. On success the number of bytes added is returned; on
/// failure `buf` is left exactly as it was.
pub fn accumulate(steps: &Vec<SourceStep>, end: Option<ReadError>, buf: &mut Vec<u8>) -> (r: Result<
    usize,
    ReadError,
>)
    requires
        old(buf)@.len() + source_bytes(steps@).len() + GROWTH_STEP <= usize::MAX,
    ensures
        match end {
            None => {
                &&& r == Ok::<usize, ReadError>(source_bytes(steps@).len() as usize)
                &&& final(buf)@ == old(buf)@ + source_bytes(steps@)
            },
            Some(e) => {
                &&& r == Err::<usize, ReadError>(e)
                &&& final(buf)@ == old(buf)@
            },
        },
{
    let ghost start = buf@;
    let ghost total = source_bytes(steps@).len();
    let mut dest: Vec<u8> = Vec::new();
    core::mem::swap(buf, &mut dest);
    let mut rd = ReadToEnd::new(dest);
    let mut i: usize = 0;
    while i < steps.len()
        invariant
            i <= steps@.len(),
            rd.wf(),
            rd.initial() == start,
            rd.filled() == start + source_bytes(steps@.take(i as int)),
            rd.spec_state() == ReaderState::Idle || rd.spec_state() == ReaderState::AwaitingChunk,
            rd.extent() <= rd.filled().len() + GROWTH_STEP,
            start.len() + total + GROWTH_STEP <= usize::MAX,
            total == source_bytes(steps@).len(),
        decreases steps@.len() - i,
    {
        proof {
            lemma_source_bytes_step(steps@, i as int);
            lemma_source_bytes_prefix_len(steps@, i as int + 1);
        }
        match &steps[i] {
            SourceStep::Pending => {
                rd.window();
                rd.advance(ReadEvent::Pending);
            },
            SourceStep::Bytes(b) => {
                let ghost before = rd.filled();
                let mut off: usize = 0;
                while off < b.len()
                    invariant
                        off <= b@.len(),
                        rd.wf(),
                        rd.initial() == start,
                        rd.filled() == before + b@.take(off as int),
                        before + b@ == start + source_bytes(steps@.take(i as int + 1)),
                        rd.spec_state() == ReaderState::Idle || rd.spec_state()
                            == ReaderState::AwaitingChunk,
                        rd.extent() <= rd.filled().len() + GROWTH_STEP,
                        start.len() + source_bytes(steps@.take(i as int + 1)).len() + GROWTH_STEP
                            <= usize::MAX,
                    decreases b@.len() - off,
                {
                    assert((before + b@).len() == before.len() + b@.len());
                    assert(rd.filled().len() == before.len() + off);
                    let w = rd.window();
                    let rest = b.len() - off;
                    let n = if w < rest {
                        w
                    } else {
                        rest
                    };
                    let mut piece: Vec<u8> = Vec::new();
                    let mut k: usize = 0;
                    while k < n
                        invariant
                            k <= n,
                            off + n <= b@.len(),
                            b@.len() <= usize::MAX,
                            piece@ == b@.subrange(off as int, off + k),
                        decreases n - k,
                    {
                        piece.push(b[off + k]);
                        k = k + 1;
                        assert(piece@ =~= b@.subrange(off as int, off + k));
                    }
                    rd.advance(ReadEvent::Chunk(piece));
                    assert(b@.take(off as int) + b@.subrange(off as int, off + n) =~= b@.take(
                        (off + n) as int,
                    ));
                    off = off + n;
                }
                assert(b@.take(off as int) =~= b@);
            },
        }
        i = i + 1;
    }
    assert(steps@.take(i as int) =~= steps@);
    rd.window();
    let outcome = match end {
        None => rd.advance(ReadEvent::End),
        Some(e) => rd.advance(ReadEvent::Fault(e)),
    };
    *buf = rd.into_buffer();
    proof {
        assert(rd.filled().subrange(start.len() as int, rd.filled().len() as int)
            =~= source_bytes(steps@));
    }
    match outcome {
        Progress::Complete(n) => Ok(n),
        Progress::Failed(e) => Err(e),
        _ => Err(ReadError::Cancelled),
    }
}

/// Reads every byte of `source` to the end of `buf`, the way a reader over
/// an in-memory slice answers: each read fills as much of the window as the
/// slice still has. Returns the number of bytes added.
pub fn read_to_end(source: &[u8], buf: &mut Vec<u8>) -> (r: usize)
    requires
        old(buf)@.len() + source@.len() + GROWTH_STEP <= usize::MAX,
    ensures
        final(buf)@ == old(buf)@ + source@,
        r == source@.len(),
{
    let mut data: Vec<u8> = Vec::new();
    let mut k: usize = 0;
    while k < source.len()
        invariant
            k <= source@.len(),
            data@ == source@.take(k as int),
        decreases source@.len() - k,
    {
        data.push(source[k]);
        k = k + 1;
        assert(data@ =~= source@.take(k as int));
    }
    assert(data@ =~= source@);
    let steps = vec![SourceStep::Bytes(data)];
    proof {
        assert(steps@.drop_last() =~= Seq::<SourceStep>::empty());
        assert(source_bytes(steps@.drop_last()) =~= Seq::<u8>::empty());
        assert(source_bytes(steps@) =~= source@);
    }
    match accumulate(&steps, None, buf) {
        Ok(n) => n,
        Err(_) => 0,
    }
}

/// Reading a whole source into a buffer.
pub trait AsyncReadExt {
    /// The bytes the source has still to give.
    spec fn remaining(&self) -> Seq<u8>;

    /// How the source ends once those bytes are given: `None` when cleanly.
    spec fn failure(&self) -> Option<ReadError>;

    /// Appends every remaining byte to `buf` and returns how many were added;
    /// when the source fails, `buf` is left as it was.
    fn read_to_end(&mut self, buf: &mut Vec<u8>) -> (r: Result<usize, ReadError>)
        requires
            old(buf)@.len() + old(self).remaining().len() + GROWTH_STEP <= usize::MAX,
        ensures
            match old(self).failure() {
                None => {
                    &&& r == Ok::<usize, ReadError>(old(self).remaining().len() as usize)
                    &&& final(buf)@ == old(buf)@ + old(self).remaining()
                },
                Some(e) => {
                    &&& r == Err::<usize, ReadError>(e)
                    &&& final(buf)@ == old(buf)@
                },
            },
    ;
}

/// A source that gives its bytes over several turns, some of which find it
/// not ready, and then ends cleanly or fails.
pub struct ScriptedSource {
    steps: Vec<SourceStep>,
    end: Option<ReadError>,
}

impl ScriptedSource {
    pub fn new(steps: Vec<SourceStep>, end: Option<ReadError>) -> (r: Self)
        ensures
            r.remaining() == source_bytes(steps@),
            r.failure() == end,
    {
        ScriptedSource { steps, end }
    }
}

impl AsyncReadExt for ScriptedSource {
    closed spec fn remaining(&self) -> Seq<u8> {
        source_bytes(self.steps@)
    }

    closed spec fn failure(&self) -> Option<ReadError> {
        self.end
    }

    fn read_to_end(&mut self, buf: &mut Vec<u8>) -> (r: Result<usize, ReadError>) {
        accumulate(&self.steps, self.end, buf)
    }
}

} // verus!
