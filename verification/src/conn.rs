//! Per-connection state machine.
//!
//! A connection is always in exactly one phase: reading a request into a
//! fixed-capacity buffer, writing the response payload, or flushing the
//! written output. Non-blocking I/O outcomes drive the transitions; a
//! would-block outcome leaves the state untouched so the connection
//! resumes at the same byte offset on a later tick.

use vstd::prelude::*;

verus! {

/// Fixed capacity of the per-connection receive buffer, in bytes.
pub const BUF_CAPACITY: usize = 1024;

/// The phase a connection is in. Phases only ever advance, one at a
/// time, in the order `Reading`, `Writing`, `Flushing`.
#[derive(Clone, Copy, Debug, PartialEq, Eq, Structural)]
pub enum Phase {
    Reading,
    Writing,
    Flushing,
}

/// Executable connection state: the phase together with the data that
/// phase needs to resume after a would-block.
pub enum ConnState {
    /// Receiving the request: `buf` has fixed length [`BUF_CAPACITY`];
    /// bytes below `cursor` have been received so far.
    Reading { buf: Vec<u8>, cursor: usize },
    /// Sending the response: bytes of `payload` below `cursor` have
    /// been accepted by the transport so far.
    Writing { payload: Vec<u8>, cursor: usize },
    /// All response bytes submitted; awaiting flush confirmation.
    Flushing,
}

/// Mathematical model of a [`ConnState`].
#[verifier::ext_equal]
pub enum StateView {
    Reading { buf: Seq<u8>, cursor: int },
    Writing { payload: Seq<u8>, cursor: int },
    Flushing,
}

impl View for ConnState {
    type V = StateView;

    open spec fn view(&self) -> StateView {
        match self {
            ConnState::Reading { buf, cursor } => (StateView::Reading {
                buf: buf@,
                cursor: *cursor as int,
            }),
            ConnState::Writing { payload, cursor } => (StateView::Writing {
                payload: payload@,
                cursor: *cursor as int,
            }),
            ConnState::Flushing => StateView::Flushing,
        }
    }
}

/// The cursor never runs past the buffer or payload it indexes into,
/// and the receive buffer keeps its fixed length.
pub open spec fn wf_state(s: StateView) -> bool {
    match s {
        StateView::Reading { buf, cursor } => buf.len() == BUF_CAPACITY && 0 <= cursor
            <= BUF_CAPACITY,
        StateView::Writing { payload, cursor } => 0 <= cursor <= payload.len(),
        StateView::Flushing => true,
    }
}

/// The phase of a state.
pub open spec fn phase_of(s: StateView) -> Phase {
    match s {
        StateView::Reading { .. } => Phase::Reading,
        StateView::Writing { .. } => Phase::Writing,
        StateView::Flushing => Phase::Flushing,
    }
}

/// Position of a phase in servicing order: `Reading` first, then
/// `Writing`, then `Flushing`.
pub open spec fn phase_index(p: Phase) -> int {
    match p {
        Phase::Reading => 0,
        Phase::Writing => 1,
        Phase::Flushing => 2,
    }
}

/// The state of a freshly accepted connection: reading from offset
/// zero into a zeroed buffer.
pub open spec fn initial_state() -> StateView {
    StateView::Reading { buf: Seq::new(BUF_CAPACITY as nat, |i: int| 0u8), cursor: 0 }
}

/// Outcome of feeding one successful read to a `Reading` connection.
#[derive(Clone, Copy, Debug, PartialEq, Eq, Structural)]
pub enum ReadStep {
    /// No terminator yet: stay in `Reading` and attempt another read.
    NeedMore,
    /// The terminator arrived: the request is complete and the
    /// connection moved to `Writing` with the response payload.
    Complete,
    /// The peer closed the stream (zero-length read): remove the entry.
    Disconnected,
    /// The bytes would run past the fixed buffer capacity: the request
    /// is rejected and the state left unchanged.
    TooLarge,
}

/// Outcome of feeding one successful write to a `Writing` connection.
#[derive(Clone, Copy, Debug, PartialEq, Eq, Structural)]
pub enum WriteStep {
    /// Payload bytes remain: stay in `Writing` and attempt another write.
    NeedMore,
    /// The whole payload has been accepted: the connection moved to
    /// `Flushing`.
    SentAll,
    /// The peer closed the stream (zero-length write): remove the entry.
    Disconnected,
}

/// The request terminator: CR LF CR LF ends exactly at `cursor`.
pub open spec fn request_complete(buf: Seq<u8>, cursor: int) -> bool {
    &&& 4 <= cursor <= buf.len()
    &&& buf[cursor - 4] == 13u8
    &&& buf[cursor - 3] == 10u8
    &&& buf[cursor - 2] == 13u8
    &&& buf[cursor - 1] == 10u8
}

/// `buf` with `data` laid down starting at offset `at`; everything
/// outside that span is unchanged and the length is kept.
pub open spec fn write_bytes(buf: Seq<u8>, at: int, data: Seq<u8>) -> Seq<u8> {
    Seq::new(buf.len(), |i: int| if at <= i < at + data.len() { data[i - at] } else { buf[i] })
}

/// The fixed response payload: an HTTP/1.1 200 status line, the literal
/// header lines, and the twelve-byte body.
pub open spec fn response_view() -> Seq<u8> {
    vstd::utf8::encode_utf8(
        "HTTP/1.1 200 OK\r\nContent-Length: 12\nConnection: close\r\n\r\nHello world!"@,
    )
}

/// Where a `Reading` connection lands after a successful read of
/// `data` at the saved cursor: unchanged on a zero-length read (the
/// peer is gone) or when the bytes would overrun the fixed buffer;
/// `Writing` from the start of the response payload when the
/// terminator now ends at the cursor; otherwise `Reading` with the
/// cursor advanced past the new bytes.
pub open spec fn read_transition(s: StateView, data: Seq<u8>) -> StateView
    recommends
        s is Reading,
{
    let b = s->Reading_buf;
    let c = s->Reading_cursor;
    if data.len() == 0 || c + data.len() > BUF_CAPACITY {
        s
    } else {
        let b1 = write_bytes(b, c, data);
        let c1 = c + data.len();
        if request_complete(b1, c1) {
            StateView::Writing { payload: response_view(), cursor: 0 }
        } else {
            StateView::Reading { buf: b1, cursor: c1 }
        }
    }
}

/// The report a read step returns, keyed by the same cases as
/// [`read_transition`].
pub open spec fn read_step_spec(s: StateView, data: Seq<u8>) -> ReadStep
    recommends
        s is Reading,
{
    if data.len() == 0 {
        ReadStep::Disconnected
    } else if s->Reading_cursor + data.len() > BUF_CAPACITY {
        ReadStep::TooLarge
    } else if read_transition(s, data) is Writing {
        ReadStep::Complete
    } else {
        ReadStep::NeedMore
    }
}

/// Where a `Writing` connection lands after a successful write of `n`
/// bytes: unchanged on a zero-length write (the peer is gone);
/// `Flushing` once the cursor reaches the end of the payload;
/// otherwise `Writing` with the cursor advanced by `n`.
pub open spec fn write_transition(s: StateView, n: int) -> StateView
    recommends
        s is Writing,
{
    let p = s->Writing_payload;
    let c = s->Writing_cursor;
    if n == 0 {
        s
    } else if c + n == p.len() {
        StateView::Flushing
    } else {
        StateView::Writing { payload: p, cursor: c + n }
    }
}

/// The report a write step returns, keyed by the same cases as
/// [`write_transition`].
pub open spec fn write_step_spec(s: StateView, n: int) -> WriteStep
    recommends
        s is Writing,
{
    if n == 0 {
        WriteStep::Disconnected
    } else if s->Writing_cursor + n == s->Writing_payload.len() {
        WriteStep::SentAll
    } else {
        WriteStep::NeedMore
    }
}

/// Whether the terminator ends exactly at `cursor`.
fn ends_with_terminator(buf: &Vec<u8>, cursor: usize) -> (r: bool)
    requires
        cursor <= buf@.len(),
    ensures
        r == request_complete(buf@, cursor as int),
{
    if cursor < 4 {
        false
    } else {
        buf[cursor - 4] == 13 && buf[cursor - 3] == 10 && buf[cursor - 2] == 13 && buf[cursor - 1]
            == 10
    }
}

/// Copies `data` into `buf` starting at offset `at`, leaving the rest
/// of `buf` unchanged.
fn fill_at(buf: &mut Vec<u8>, at: usize, data: &Vec<u8>)
    requires
        at + data@.len() <= old(buf)@.len(),
    ensures
        final(buf)@ == write_bytes(old(buf)@, at as int, data@),
{
    let ghost buf0: Seq<u8> = buf@;
    let len0 = buf.len();
    let n = data.len();
    let mut i: usize = 0;
    while i < n
        invariant
            i <= n,
            n == data@.len(),
            at + n <= len0,
            len0 == buf0.len(),
            buf@.len() == buf0.len(),
            forall|j: int| 0 <= j < buf0.len() && !(at <= j < at + i) ==> buf@[j] == buf0[j],
            forall|j: int| 0 <= j < i ==> buf@[at + j] == data@[j],
        decreases n - i,
    {
        let b = data[i];
        buf[at + i] = b;
        i = i + 1;
    }
    proof {
        assert(buf@ =~= write_bytes(buf0, at as int, data@));
    }
}

/// Builds the fixed response payload.
pub fn response_payload() -> (r: Vec<u8>)
    ensures
        r@ == response_view(),
{
    let s: &str = "HTTP/1.1 200 OK\r\nContent-Length: 12\nConnection: close\r\n\r\nHello world!";
    let b: &[u8] = s.as_bytes();
    vstd::slice::slice_to_vec(b)
}

impl ConnState {
    /// The state of a freshly accepted connection: reading from offset
    /// zero into a zeroed buffer.
    pub fn initial() -> (s: Self)
        ensures
            s@ == initial_state(),
            wf_state(s@),
    {
        let mut buf: Vec<u8> = Vec::new();
        while buf.len() < BUF_CAPACITY
            invariant
                buf@.len() <= BUF_CAPACITY,
                forall|i: int| 0 <= i < buf@.len() ==> buf@[i] == 0u8,
            decreases BUF_CAPACITY - buf@.len(),
        {
            buf.push(0u8);
        }
        proof {
            assert(buf@ =~= Seq::new(BUF_CAPACITY as nat, |i: int| 0u8));
        }
        ConnState::Reading { buf, cursor: 0 }
    }

    /// The phase this state is in.
    pub fn phase(&self) -> (p: Phase)
        ensures
            p == phase_of(self@),
    {
        match self {
            ConnState::Reading { .. } => Phase::Reading,
            ConnState::Writing { .. } => Phase::Writing,
            ConnState::Flushing => Phase::Flushing,
        }
    }

    /// Feeds the bytes of one successful read to a `Reading`
    /// connection. Empty `data` stands for a zero-length read, i.e. a
    /// peer disconnect; it and an overlong read leave the state
    /// untouched, for the caller to remove or reject the entry.
    pub fn apply_read(&mut self, data: &Vec<u8>) -> (r: ReadStep)
        requires
            old(self)@ is Reading,
            wf_state(old(self)@),
        ensures
            wf_state(final(self)@),
            final(self)@ == read_transition(old(self)@, data@),
            r == read_step_spec(old(self)@, data@),
    {
        let mut complete = false;
        match self {
            ConnState::Reading { buf, cursor } => {
                if data.len() == 0 {
                    return ReadStep::Disconnected;
                }
                if data.len() > BUF_CAPACITY - *cursor {
                    return ReadStep::TooLarge;
                }
                fill_at(buf, *cursor, data);
                *cursor = *cursor + data.len();
                complete = ends_with_terminator(buf, *cursor);
            },
            _ => {
                proof {
                    assert(false);
                }
            },
        }
        if complete {
            *self = ConnState::Writing { payload: response_payload(), cursor: 0 };
            ReadStep::Complete
        } else {
            ReadStep::NeedMore
        }
    }

    /// Feeds the byte count of one successful write to a `Writing`
    /// connection. A count of zero stands for a zero-length write,
    /// i.e. a peer disconnect, and leaves the state untouched for the
    /// caller to remove the entry.
    pub fn apply_write(&mut self, n: usize) -> (r: WriteStep)
        requires
            old(self)@ is Writing,
            wf_state(old(self)@),
            n <= old(self)@->Writing_payload.len() - old(self)@->Writing_cursor,
        ensures
            wf_state(final(self)@),
            final(self)@ == write_transition(old(self)@, n as int),
            r == write_step_spec(old(self)@, n as int),
    {
        let mut done = false;
        match self {
            ConnState::Writing { payload, cursor } => {
                if n == 0 {
                    return WriteStep::Disconnected;
                }
                let plen = payload.len();
                *cursor = *cursor + n;
                done = *cursor == plen;
            },
            _ => {
                proof {
                    assert(false);
                }
            },
        }
        if done {
            *self = ConnState::Flushing;
            WriteStep::SentAll
        } else {
            WriteStep::NeedMore
        }
    }
}

/// A read step keeps the phase or advances it to the next one: a
/// `Reading` connection either stays `Reading` or moves to `Writing`,
/// never to `Flushing`.
pub proof fn lemma_read_phase_order(s: StateView, data: Seq<u8>)
    requires
        s is Reading,
    ensures
        phase_of(read_transition(s, data)) == Phase::Reading || phase_of(
            read_transition(s, data),
        ) == Phase::Writing,
{
}

/// A write step keeps the phase or advances it to the next one: a
/// `Writing` connection either stays `Writing` or moves to `Flushing`,
/// never back to `Reading`.
pub proof fn lemma_write_phase_order(s: StateView, n: int)
    requires
        s is Writing,
    ensures
        phase_of(write_transition(s, n)) == Phase::Writing || phase_of(write_transition(s, n))
            == Phase::Flushing,
{
}

/// Splitting the incoming bytes across several reads loses nothing:
/// when a first read leaves the connection still `Reading` (the
/// terminator has not yet ended at the cursor), feeding the next bytes
/// on a later tick reaches exactly the state that one combined read of
/// all the bytes would have reached. Resumption at the saved cursor
/// therefore still detects a terminator split across partial reads.
pub proof fn lemma_split_read(s: StateView, d1: Seq<u8>, d2: Seq<u8>)
    requires
        s is Reading,
        wf_state(s),
        d1.len() > 0,
        d2.len() > 0,
        s->Reading_cursor + d1.len() + d2.len() <= BUF_CAPACITY,
        read_transition(s, d1) is Reading,
    ensures
        read_transition(read_transition(s, d1), d2) == read_transition(s, d1 + d2),
{
    let b = s->Reading_buf;
    let c = s->Reading_cursor;
    let n1 = d1.len() as int;
    let n2 = d2.len() as int;
    let lhs_buf = write_bytes(write_bytes(b, c, d1), c + n1, d2);
    let rhs_buf = write_bytes(b, c, d1 + d2);
    assert forall|i: int| 0 <= i < b.len() implies lhs_buf[i] == rhs_buf[i] by {
        if c <= i < c + n1 {
            assert((d1 + d2)[i - c] == d1[i - c]);
        } else if c + n1 <= i < c + n1 + n2 {
            assert((d1 + d2)[i - c] == d2[i - c - n1]);
        }
    }
    assert(lhs_buf =~= rhs_buf);
    assert(read_transition(read_transition(s, d1), d2) =~= read_transition(s, d1 + d2));
}

/// The concatenation of a sequence of byte chunks, in order.
pub open spec fn concat_chunks(chunks: Seq<Seq<u8>>) -> Seq<u8>
    decreases chunks.len(),
{
    if chunks.len() == 0 {
        Seq::empty()
    } else {
        chunks[0] + concat_chunks(chunks.skip(1))
    }
}

/// The state after feeding each chunk in turn to [`read_transition`].
pub open spec fn apply_reads(s: StateView, chunks: Seq<Seq<u8>>) -> StateView
    decreases chunks.len(),
{
    if chunks.len() == 0 {
        s
    } else {
        apply_reads(read_transition(s, chunks[0]), chunks.skip(1))
    }
}

/// However the peer splits its bytes across successful reads, as long
/// as no read before the last one completes the request, the
/// connection ends in exactly the state one single read of all the
/// bytes would produce. In particular a terminator split across many
/// partial reads, each followed by a would-block, is still detected.
pub proof fn lemma_reads_compose(s: StateView, chunks: Seq<Seq<u8>>)
    requires
        s is Reading,
        wf_state(s),
        forall|k: int| 0 <= k < chunks.len() ==> (#[trigger] chunks[k]).len() > 0,
        s->Reading_cursor + concat_chunks(chunks).len() <= BUF_CAPACITY,
        forall|m: int|
            1 <= m < chunks.len() ==> apply_reads(s, #[trigger] chunks.take(m)) is Reading,
    ensures
        apply_reads(s, chunks) == read_transition(s, concat_chunks(chunks)),
    decreases chunks.len(),
{
    if chunks.len() == 0 {
        assert(read_transition(s, concat_chunks(chunks)) == s);
    } else if chunks.len() == 1 {
        assert(chunks.skip(1).len() == 0);
        assert(concat_chunks(chunks.skip(1)) == Seq::<u8>::empty());
        assert(concat_chunks(chunks) == chunks[0] + concat_chunks(chunks.skip(1)));
        assert(chunks[0] + Seq::<u8>::empty() =~= chunks[0]);
        assert(apply_reads(s, chunks) == apply_reads(
            read_transition(s, chunks[0]),
            chunks.skip(1),
        ));
        assert(apply_reads(read_transition(s, chunks[0]), chunks.skip(1)) == read_transition(
            s,
            chunks[0],
        ));
    } else {
        let c0 = chunks[0];
        let rest = chunks.skip(1);
        let s1 = read_transition(s, c0);
        let tail = concat_chunks(rest);
        assert(concat_chunks(chunks) == c0 + tail);
        assert((c0 + tail).len() == c0.len() + tail.len());

        let pre1 = chunks.take(1);
        assert(apply_reads(s, pre1) is Reading);
        assert(pre1[0] == c0);
        assert(apply_reads(s, pre1) == apply_reads(read_transition(s, pre1[0]), pre1.skip(1)));
        assert(pre1.skip(1).len() == 0);
        assert(apply_reads(s1, pre1.skip(1)) == s1);
        assert(s1 is Reading);

        assert(wf_state(s1));
        assert(s1->Reading_cursor == s->Reading_cursor + c0.len());
        assert(rest[0].len() > 0);
        assert(tail.len() >= rest[0].len()) by {
            assert(tail == rest[0] + concat_chunks(rest.skip(1)));
        }

        assert forall|m: int|
            1 <= m < rest.len() implies apply_reads(s1, #[trigger] rest.take(m)) is Reading by {
            let pre = chunks.take(m + 1);
            assert(apply_reads(s, pre) is Reading);
            assert(pre[0] == c0);
            assert(pre.skip(1) =~= rest.take(m));
            assert(apply_reads(s, pre) == apply_reads(read_transition(s, pre[0]), pre.skip(1)));
            assert(apply_reads(s, pre) == apply_reads(s1, rest.take(m)));
        }
        lemma_reads_compose(s1, rest);
        lemma_split_read(s, c0, tail);
        assert(apply_reads(s, chunks) == apply_reads(read_transition(s, chunks[0]), chunks.skip(1)));
    }
}

} // verus!
