//! The double-buffered producer: appends record frames to the active buffer
//! and hands a filled buffer to the sink.

use vstd::prelude::*;
use vstd::slice::slice_subrange;
use crate::clock::{relative_step, TimestampConverter};
use crate::codec::{le_encode, lemma_le_encode_len, store_le};
use crate::reader::{BUFFER_HEADER_SIZE, FRAME_HEADER_SIZE};
use crate::record::{LogError, MAX_PAYLOAD};

verus! {

/// The sink that receives filled buffers.
pub trait BufferHandler {
    /// Receives a buffer image: an 8-byte little-endian count of the frame
    /// bytes that follow, then the record frames. The slice holds the header
    /// and the frames; its bytes are reused once this returns.
    fn handle_switched_out_buffer(&self, buffer: &[u8]);
}

/// The bytes of one record frame.
pub open spec fn frame_bytes(rebased: bool, delta: u16, format_id: u16, payload: Seq<u8>) -> Seq<
    u8,
> {
    seq![if rebased { 1u8 } else { 0u8 }, 0u8] + le_encode(delta as nat, 2) + le_encode(
        format_id as nat,
        2,
    ) + le_encode(payload.len(), 2) + payload
}

/// A buffer as handed to the sink: the byte count of its frames, then the
/// frames `body`.
pub open spec fn buffer_image(body: Seq<u8>) -> Seq<u8> {
    le_encode(body.len(), 8) + body
}

/// Whether a payload of `len` bytes cannot be recorded with buffers of `cap`
/// bytes: over the payload limit, or a frame that does not fit in an empty
/// buffer.
pub open spec fn record_too_large(cap: nat, len: nat) -> bool {
    len > MAX_PAYLOAD || 16 + len > cap
}

/// What a producer holds: the frames in the active buffer, every buffer image
/// handed to the sink so far, and the compressor's base.
pub ghost struct LoggerView {
    pub pending: Seq<u8>,
    pub sent: Seq<Seq<u8>>,
    pub clock: Option<u64>,
}

/// The producer after appending a record at tick `now`: when the frame does
/// not fit behind the pending frames, the active buffer is handed off first.
pub open spec fn append_spec(
    v: LoggerView,
    cap: nat,
    now: u64,
    format_id: u16,
    payload: Seq<u8>,
) -> LoggerView {
    let (clock, delta, rebased) = relative_step(v.clock, now);
    let f = frame_bytes(rebased, delta, format_id, payload);
    if 8 + v.pending.len() + f.len() > cap {
        LoggerView { pending: f, sent: v.sent.push(buffer_image(v.pending)), clock }
    } else {
        LoggerView { pending: v.pending + f, sent: v.sent, clock }
    }
}

/// The producer after a hand-off of the active buffer.
pub open spec fn swap_spec(v: LoggerView) -> LoggerView {
    LoggerView { pending: Seq::empty(), sent: v.sent.push(buffer_image(v.pending)), clock: v.clock }
}

/// The producer after a flush: a hand-off when frames are pending, else
/// nothing.
pub open spec fn flush_spec(v: LoggerView) -> LoggerView {
    if v.pending.len() > 0 {
        swap_spec(v)
    } else {
        v
    }
}

/// A single-thread binary logger with two buffers of `CAP` bytes.
pub struct Logger<const CAP: usize, H: BufferHandler> {
    active: Vec<u8>,
    inactive: Vec<u8>,
    write_pos: usize,
    handler: H,
    clock: TimestampConverter,
    sent: Ghost<Seq<Seq<u8>>>,
}

impl<const CAP: usize, H: BufferHandler> View for Logger<CAP, H> {
    type V = LoggerView;

    closed spec fn view(&self) -> LoggerView {
        LoggerView {
            pending: self.active@.subrange(8, self.write_pos as int),
            sent: self.sent@,
            clock: self.clock@,
        }
    }
}

/// Writes `src` into `buf` at `at`.
fn store(buf: &mut Vec<u8>, at: usize, src: &[u8])
    requires
        at + src@.len() <= old(buf)@.len(),
    ensures
        final(buf)@.len() == old(buf)@.len(),
        final(buf)@ == old(buf)@.subrange(0, at as int) + src@ + old(buf)@.subrange(
            at + src@.len(),
            old(buf)@.len() as int,
        ),
{
    let n = src.len();
    let blen = buf.len();
    let mut k: usize = 0;
    while k < n
        invariant
            n == src@.len(),
            k <= n,
            at + n <= old(buf)@.len(),
            buf@.len() == old(buf)@.len(),
            blen == old(buf)@.len(),
            buf@ == old(buf)@.subrange(0, at as int) + src@.subrange(0, k as int) + old(
                buf,
            )@.subrange(at + k, old(buf)@.len() as int),
        decreases n - k,
    {
        buf[at + k] = src[k];
        assert(buf@ =~= old(buf)@.subrange(0, at as int) + src@.subrange(0, k + 1) + old(
            buf,
        )@.subrange(at + k + 1, old(buf)@.len() as int));
        k = k + 1;
    }
    assert(src@.subrange(0, n as int) =~= src@);
}

impl<const CAP: usize, H: BufferHandler> Logger<CAP, H> {
    pub closed spec fn inv(&self) -> bool {
        &&& self.active@.len() == CAP
        &&& self.inactive@.len() == CAP
        &&& 8 <= self.write_pos <= CAP
    }

    /// Well formed: buffers of at least 16 bytes, pending frames that fit
    /// behind the header.
    pub open spec fn wf(&self) -> bool {
        &&& self.inv()
        &&& CAP >= 16
        &&& 8 + self@.pending.len() <= CAP
    }

    /// A producer with empty buffers, no base timestamp, and nothing sent.
    pub fn new(handler: H) -> (r: Self)
        requires
            CAP >= 16,
        ensures
            r.wf(),
            r@.pending.len() == 0,
            r@.sent.len() == 0,
            r@.clock is None,
    {
        Logger {
            active: vec![0u8; CAP],
            inactive: vec![0u8; CAP],
            write_pos: BUFFER_HEADER_SIZE,
            handler,
            clock: TimestampConverter::new(),
            sent: Ghost(Seq::empty()),
        }
    }

    /// The sink.
    pub fn handler(&self) -> &H {
        &self.handler
    }

    /// Hands the active buffer to the sink and makes the other one active.
    fn switch_buffers(&mut self)
        requires
            old(self).wf(),
        ensures
            final(self).wf(),
            final(self)@ == swap_spec(old(self)@),
    {
        let ghost body = self@.pending;
        store_le(&mut self.active, 0, (self.write_pos - BUFFER_HEADER_SIZE) as u64, 8);
        proof {
            lemma_le_encode_len((self.write_pos - 8) as nat, 8);
        }
        std::mem::swap(&mut self.active, &mut self.inactive);
        let filled = self.write_pos;
        self.write_pos = BUFFER_HEADER_SIZE;
        let image = slice_subrange(self.inactive.as_slice(), 0, filled);
        assert(image@ =~= buffer_image(body));
        self.handler.handle_switched_out_buffer(image);
        self.sent = Ghost(self.sent@.push(image@));
        assert(self@.pending =~= Seq::<u8>::empty());
    }

    /// Writes one frame, handing off the active buffer first when the frame
    /// does not fit behind the pending ones.
    fn append_frame(&mut self, rebased: bool, delta: u16, format_id: u16, payload: &[u8])
        requires
            old(self).wf(),
            !record_too_large(CAP as nat, payload@.len()),
        ensures
            final(self).wf(),
            final(self)@.clock == old(self)@.clock,
            ({
                let f = frame_bytes(rebased, delta, format_id, payload@);
                let v = old(self)@;
                if 8 + v.pending.len() + f.len() > CAP {
                    final(self)@.pending == f && final(self)@.sent == v.sent.push(
                        buffer_image(v.pending),
                    )
                } else {
                    final(self)@.pending == v.pending + f && final(self)@.sent == v.sent
                }
            }),
    {
        let frame_len = FRAME_HEADER_SIZE + payload.len();
        if frame_len > CAP - self.write_pos {
            self.switch_buffers();
        }
        let ghost before = self@.pending;
        let ghost old_active = self.active@;
        assert(self.active@.subrange(8, self.write_pos as int).len() == self.write_pos - 8);
        assert(self.write_pos + frame_len <= CAP);
        let pos = self.write_pos;
        let kind: u8 = if rebased { 1 } else { 0 };
        self.active[pos] = kind;
        self.active[pos + 1] = 0;
        store_le(&mut self.active, pos + 2, delta as u64, 2);
        store_le(&mut self.active, pos + 4, format_id as u64, 2);
        store_le(&mut self.active, pos + 6, payload.len() as u64, 2);
        store(&mut self.active, pos + 8, payload);
        proof {
            lemma_le_encode_len(delta as nat, 2);
            lemma_le_encode_len(format_id as nat, 2);
            lemma_le_encode_len(payload@.len(), 2);
        }
        self.write_pos = pos + frame_len;
        let ghost a = self.active@;
        assert(a.subrange(8, pos as int) =~= old_active.subrange(8, pos as int));
        assert(a.subrange(pos + 2, pos + 4) =~= le_encode(delta as nat, 2));
        assert(a.subrange(pos + 4, pos + 6) =~= le_encode(format_id as nat, 2));
        assert(a.subrange(pos + 6, pos + 8) =~= le_encode(payload@.len(), 2));
        assert(a.subrange(pos + 8, self.write_pos as int) =~= payload@);
        assert(a.subrange(8, self.write_pos as int) =~= before + frame_bytes(
            rebased,
            delta,
            format_id,
            payload@,
        ));
    }

    /// Appends a record stamped at tick `now`.
    pub fn write_at(&mut self, now: u64, format_id: u16, payload: &[u8]) -> (r: Result<(), LogError>)
        requires
            old(self).wf(),
        ensures
            final(self).wf(),
            r is Err <==> record_too_large(CAP as nat, payload@.len()),
            r is Err ==> final(self)@ == old(self)@ && r == Err::<(), LogError>(
                LogError::RecordTooLarge,
            ),
            r is Ok ==> final(self)@ == append_spec(old(self)@, CAP as nat, now, format_id, payload@),
    {
        if payload.len() > MAX_PAYLOAD || payload.len() > CAP - 16 {
            return Err(LogError::RecordTooLarge);
        }
        let (delta, rebased) = self.clock.get_relative_timestamp_at(now);
        self.append_frame(rebased, delta, format_id, payload);
        Ok(())
    }

    /// Appends a record stamped at the current tick.
    pub fn write(&mut self, format_id: u16, payload: &[u8]) -> (r: Result<(), LogError>)
        requires
            old(self).wf(),
        ensures
            final(self).wf(),
            r is Err <==> record_too_large(CAP as nat, payload@.len()),
            r is Err ==> final(self)@ == old(self)@ && r == Err::<(), LogError>(
                LogError::RecordTooLarge,
            ),
            r is Ok ==> exists|now: u64|
                final(self)@ == #[trigger] append_spec(old(self)@, CAP as nat, now, format_id, payload@),
    {
        if payload.len() > MAX_PAYLOAD || payload.len() > CAP - 16 {
            return Err(LogError::RecordTooLarge);
        }
        let now = crate::clock::get_timestamp();
        self.write_at(now, format_id, payload)
    }

    /// Hands the active buffer to the sink when it holds any frame.
    pub fn flush(&mut self)
        requires
            old(self).wf(),
        ensures
            final(self).wf(),
            final(self)@ == flush_spec(old(self)@),
    {
        if self.write_pos > BUFFER_HEADER_SIZE {
            self.switch_buffers();
        }
    }
}

/// When a record does not fit behind the pending frames, exactly one buffer
/// image goes to the sink before the frame is written, holding exactly the
/// pending frames, and the frame is then written right after the header of
/// the fresh buffer. When it fits, nothing is handed off.
pub proof fn lemma_append_swaps_once(
    v: LoggerView,
    cap: nat,
    now: u64,
    format_id: u16,
    payload: Seq<u8>,
)
    ensures
        ({
            let (clock, delta, rebased) = relative_step(v.clock, now);
            let f = frame_bytes(rebased, delta, format_id, payload);
            let w = append_spec(v, cap, now, format_id, payload);
            &&& 8 + v.pending.len() + f.len() > cap ==> w.sent.len() == v.sent.len() + 1
                && w.sent == v.sent.push(buffer_image(v.pending)) && w.pending == f
            &&& 8 + v.pending.len() + f.len() <= cap ==> w.sent == v.sent && w.pending
                == v.pending + f
        }),
{
}

/// A flush with nothing pending hands nothing off, and two flushes in a row
/// hand off at most one buffer.
pub proof fn lemma_flush_idempotent(v: LoggerView)
    ensures
        v.pending.len() == 0 ==> flush_spec(v) == v,
        flush_spec(flush_spec(v)) == flush_spec(v),
        flush_spec(flush_spec(v)).sent.len() <= v.sent.len() + 1,
{
}

} // verus!
