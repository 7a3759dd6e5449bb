//! Buffered batch writer.
//!
//! Producers submit encoded records; the writer accumulates them and
//! delivers them to the sink in batches, preserving submission order.
//! A batch is cut as soon as the pending records reach a line-count or
//! byte-size threshold, or when a periodic timer fires with anything
//! pending. A failed sink write returns the whole batch to the front
//! of the pending queue, in order, to be retried without limit.
//!
//! Each submitted record carries an observable delivery status that
//! only ever moves forward: `Init` on submission, `Buffered` once the
//! writer has taken it, `Accepted` once a sink write containing it
//! succeeded.
//!
//! The writer is a state machine; the surrounding program performs the
//! actual sink call between [`BatchWriter::begin_flush`] and
//! [`BatchWriter::flush_succeeded`] / [`BatchWriter::flush_failed`].

use vstd::prelude::*;

verus! {

/// Delivery state of one submitted record.
#[derive(Clone, Copy, Debug, PartialEq, Eq, Structural)]
pub enum Status {
    Init,
    Buffered,
    Accepted,
}

/// Position of a status on the one-way road `Init -> Buffered ->
/// Accepted`.
pub open spec fn status_rank(s: Status) -> int {
    match s {
        Status::Init => 0,
        Status::Buffered => 1,
        Status::Accepted => 2,
    }
}

/// Submission failed because the writer is closed; this happens only
/// during shutdown.
#[derive(Debug)]
pub struct BufferedWriteError;

/// A sink write failed; the records of the batch stay queued.
#[derive(Debug)]
pub struct WriteError;

/// Tuning knobs of the writer.
#[derive(Clone, Copy, Debug)]
pub struct Options {
    /// Capacity of the submission queue; a full queue is backpressure.
    pub channel_len: usize,
    /// The periodic flush interval in milliseconds.
    pub max_timeout_ms: u64,
    /// Cut a batch once this many encoded lines are pending.
    pub max_lines: usize,
    /// Cut a batch once this many bytes are pending.
    pub max_bytes: usize,
}

impl Options {
    pub open spec fn valid(&self) -> bool {
        &&& self.channel_len >= 1
        &&& self.max_lines >= 1
        &&& self.max_bytes >= 1
    }
}

impl Default for Options {
    fn default() -> (r: Options)
        ensures
            r.channel_len == 64,
            r.max_timeout_ms == 60_000,
            r.max_lines == 5000,
            r.max_bytes == 30_000,
            r.valid(),
    {
        Options { channel_len: 64, max_timeout_ms: 60_000, max_lines: 5000, max_bytes: 30_000 }
    }
}

/// One submitted record: its status handle and its encoded bytes.
#[derive(Debug)]
pub struct Request {
    pub handle: usize,
    pub payload: Vec<u8>,
}

/// The ghost image of a request: handle and payload bytes.
pub open spec fn req_view(r: Request) -> (int, Seq<u8>) {
    (r.handle as int, r.payload@)
}

pub open spec fn reqs_view(s: Seq<Request>) -> Seq<(int, Seq<u8>)> {
    s.map_values(|r: Request| req_view(r))
}

/// Number of newline bytes in a payload; the sink counts one encoded
/// record line per newline.
pub open spec fn lines_of(p: Seq<u8>) -> int
    decreases p.len(),
{
    if p.len() == 0 {
        0
    } else {
        lines_of(p.drop_last()) + if p.last() == 10u8 {
            1int
        } else {
            0int
        }
    }
}

pub open spec fn total_lines(s: Seq<(int, Seq<u8>)>) -> int
    decreases s.len(),
{
    if s.len() == 0 {
        0
    } else {
        total_lines(s.drop_last()) + lines_of(s.last().1)
    }
}

pub open spec fn total_bytes(s: Seq<(int, Seq<u8>)>) -> int
    decreases s.len(),
{
    if s.len() == 0 {
        0
    } else {
        total_bytes(s.drop_last()) + s.last().1.len()
    }
}

/// The payloads of a batch, concatenated in order.
pub open spec fn flatten_payloads(s: Seq<(int, Seq<u8>)>) -> Seq<u8>
    decreases s.len(),
{
    if s.len() == 0 {
        Seq::empty()
    } else {
        flatten_payloads(s.drop_last()) + s.last().1
    }
}

/// How many pending records the next batch takes: records are taken
/// oldest-first until the accumulated lines reach `ml` or the
/// accumulated bytes reach `mb`; if neither threshold is reached the
/// whole queue is taken.
pub open spec fn spec_batch_size(s: Seq<(int, Seq<u8>)>, ml: int, mb: int) -> int
    decreases s.len(),
{
    if s.len() == 0 {
        0
    } else if lines_of(s[0].1) >= ml || s[0].1.len() >= mb {
        1
    } else {
        1 + spec_batch_size(s.skip(1), ml - lines_of(s[0].1), mb - s[0].1.len())
    }
}

/// Line counts are never negative.
pub proof fn lemma_lines_nonneg(p: Seq<u8>)
    ensures
        lines_of(p) >= 0,
    decreases p.len(),
{
    if p.len() > 0 {
        lemma_lines_nonneg(p.drop_last());
    }
}

pub proof fn lemma_total_lines_nonneg(s: Seq<(int, Seq<u8>)>)
    ensures
        total_lines(s) >= 0,
    decreases s.len(),
{
    if s.len() > 0 {
        lemma_total_lines_nonneg(s.drop_last());
        lemma_lines_nonneg(s.last().1);
    }
}

pub proof fn lemma_total_bytes_nonneg(s: Seq<(int, Seq<u8>)>)
    ensures
        total_bytes(s) >= 0,
    decreases s.len(),
{
    if s.len() > 0 {
        lemma_total_bytes_nonneg(s.drop_last());
    }
}

/// Splitting off the first element splits the sums.
proof fn lemma_suffix_sums(s: Seq<(int, Seq<u8>)>)
    requires
        s.len() > 0,
    ensures
        total_lines(s) == lines_of(s[0].1) + total_lines(s.skip(1)),
        total_bytes(s) == s[0].1.len() + total_bytes(s.skip(1)),
    decreases s.len(),
{
    if s.len() == 1 {
        assert(s.skip(1) =~= Seq::empty());
        assert(s.drop_last() =~= Seq::empty());
    } else {
        lemma_suffix_sums(s.drop_last());
        assert(s.drop_last()[0] == s[0]);
        assert(s.skip(1).drop_last() =~= s.drop_last().skip(1));
        assert(s.skip(1).last() == s.last());
    }
}

/// Sums and concatenation over a prefix, one step at a time.
proof fn lemma_prefix_sums(s: Seq<(int, Seq<u8>)>, k: int)
    requires
        1 <= k <= s.len(),
    ensures
        total_lines(s.take(k)) == total_lines(s.take(k - 1)) + lines_of(s[k - 1].1),
        total_bytes(s.take(k)) == total_bytes(s.take(k - 1)) + s[k - 1].1.len(),
        flatten_payloads(s.take(k)) == flatten_payloads(s.take(k - 1)) + s[k - 1].1,
{
    assert(s.take(k).drop_last() =~= s.take(k - 1));
    assert(s.take(k).last() == s[k - 1]);
}

/// Below both thresholds the batch is everything that is pending: this
/// is why a timer-forced flush of a quiet writer carries every
/// submitted record in one call.
pub proof fn lemma_below_thresholds_takes_all(s: Seq<(int, Seq<u8>)>, ml: int, mb: int)
    requires
        total_lines(s) < ml,
        total_bytes(s) < mb,
    ensures
        spec_batch_size(s, ml, mb) == s.len(),
    decreases s.len(),
{
    if s.len() > 0 {
        lemma_suffix_sums(s);
        lemma_total_lines_nonneg(s.skip(1));
        lemma_total_bytes_nonneg(s.skip(1));
        lemma_lines_nonneg(s[0].1);
        lemma_below_thresholds_takes_all(s.skip(1), ml - lines_of(s[0].1), mb - s[0].1.len());
    }
}

/// After a failed flush the pending queue starts with the failed batch
/// itself: whatever prefix the next flush takes, the failed records
/// come first, in their original order, ahead of anything newer.
pub proof fn lemma_failed_batch_retried_first(
    failed: Seq<(int, Seq<u8>)>,
    rest: Seq<(int, Seq<u8>)>,
    k: int,
)
    requires
        0 <= k <= failed.len() + rest.len(),
    ensures
        forall|i: int|
            0 <= i < k && i < failed.len() ==> #[trigger] (failed + rest).take(k)[i] == failed[i],
{
}

/// Counts the newline bytes of one encoded payload.
pub fn count_newlines(p: &Vec<u8>) -> (r: usize)
    ensures
        r == lines_of(p@),
        r <= p@.len(),
{
    let n = p.len();
    let mut count: usize = 0;
    let mut i: usize = 0;
    while i < n
        invariant
            i <= n,
            n == p@.len(),
            count == lines_of(p@.take(i as int)),
            count <= i,
        decreases n - i,
    {
        let ghost prev = p@.take(i as int);
        let is_newline = p[i] == 10u8;
        i += 1;
        proof {
            assert(p@.take(i as int).drop_last() =~= prev);
            assert(p@.take(i as int).last() == p@[i - 1]);
        }
        if is_newline {
            count += 1;
        }
    }
    proof {
        assert(p@.take(n as int) =~= p@);
    }
    count
}

/// The buffered batch writer's state.
///
/// Records move through three places: the bounded submission `queue`
/// (status `Init`), the `pending` queue the flush loop has taken them
/// into (status `Buffered`), and the `in_flight` batch handed to the
/// sink (status `Buffered` until the outcome is known).
pub struct BatchWriter {
    options: Options,
    closed: bool,
    statuses: Vec<Status>,
    queue: Vec<Request>,
    pending: Vec<Request>,
    in_flight: Vec<Request>,
    flying: bool,
}

impl BatchWriter {
    pub closed spec fn spec_statuses(&self) -> Seq<Status> {
        self.statuses@
    }

    pub closed spec fn spec_queue(&self) -> Seq<(int, Seq<u8>)> {
        reqs_view(self.queue@)
    }

    pub closed spec fn spec_pending(&self) -> Seq<(int, Seq<u8>)> {
        reqs_view(self.pending@)
    }

    pub closed spec fn spec_in_flight(&self) -> Seq<(int, Seq<u8>)> {
        reqs_view(self.in_flight@)
    }

    pub closed spec fn spec_closed(&self) -> bool {
        self.closed
    }

    pub closed spec fn spec_flying(&self) -> bool {
        self.flying
    }

    pub closed spec fn spec_options(&self) -> Options {
        self.options
    }

    /// All records the writer still holds, oldest first.
    pub open spec fn spec_outstanding(&self) -> Seq<(int, Seq<u8>)> {
        self.spec_in_flight() + self.spec_pending() + self.spec_queue()
    }

    pub open spec fn wf(&self) -> bool {
        let all = self.spec_outstanding();
        &&& self.spec_options().valid()
        &&& forall|i: int, j: int|
            0 <= i < j < all.len() ==> (#[trigger] all[i]).0 < (#[trigger] all[j]).0
        &&& forall|i: int|
            0 <= i < all.len() ==> 0 <= (#[trigger] all[i]).0 < self.spec_statuses().len()
        &&& forall|i: int|
            0 <= i < self.spec_queue().len() ==> self.spec_statuses()[(
            #[trigger] self.spec_queue()[i]).0] == Status::Init
        &&& forall|i: int|
            0 <= i < self.spec_pending().len() ==> self.spec_statuses()[(
            #[trigger] self.spec_pending()[i]).0] == Status::Buffered
        &&& forall|i: int|
            0 <= i < self.spec_in_flight().len() ==> self.spec_statuses()[(
            #[trigger] self.spec_in_flight()[i]).0] == Status::Buffered
        &&& (!self.spec_flying() ==> self.spec_in_flight().len() == 0)
    }

    pub fn new(options: Options) -> (r: BatchWriter)
        requires
            options.valid(),
        ensures
            r.wf(),
            r.spec_options() == options,
            !r.spec_closed(),
            !r.spec_flying(),
            r.spec_statuses() == Seq::<Status>::empty(),
            r.spec_queue() == Seq::<(int, Seq<u8>)>::empty(),
            r.spec_pending() == Seq::<(int, Seq<u8>)>::empty(),
            r.spec_in_flight() == Seq::<(int, Seq<u8>)>::empty(),
    {
        let r = BatchWriter {
            options,
            closed: false,
            statuses: Vec::new(),
            queue: Vec::new(),
            pending: Vec::new(),
            in_flight: Vec::new(),
            flying: false,
        };
        proof {
            assert(r.spec_queue() =~= Seq::<(int, Seq<u8>)>::empty());
            assert(r.spec_pending() =~= Seq::<(int, Seq<u8>)>::empty());
            assert(r.spec_in_flight() =~= Seq::<(int, Seq<u8>)>::empty());
        }
        r
    }

    /// The submission queue has no room; a producer must wait for the
    /// flush loop to drain before submitting.
    pub fn is_full(&self) -> (r: bool)
        ensures
            r == (self.spec_queue().len() >= self.spec_options().channel_len),
    {
        self.queue.len() >= self.options.channel_len
    }

    pub fn is_closed(&self) -> (r: bool)
        ensures
            r == self.spec_closed(),
    {
        self.closed
    }

    /// Whether any submitted record waits to be taken by the flush
    /// loop.
    pub fn has_queued(&self) -> (r: bool)
        ensures
            r == (self.spec_queue().len() > 0),
    {
        self.queue.len() > 0
    }

    /// How many records were ever submitted; also the handle the next
    /// submission will get.
    pub fn submitted_count(&self) -> (r: usize)
        ensures
            r == self.spec_statuses().len(),
    {
        self.statuses.len()
    }

    /// The observable delivery status of a submitted record.
    pub fn status_of(&self, handle: usize) -> (r: Status)
        requires
            handle < self.spec_statuses().len(),
        ensures
            r == self.spec_statuses()[handle as int],
    {
        self.statuses[handle]
    }

    /// Whether anything is pending for the periodic flush tick: the
    /// timer forces a flush exactly when records are pending.
    pub fn timer_tick(&self) -> (flush: bool)
        ensures
            flush == (self.spec_pending().len() > 0),
    {
        self.pending.len() > 0
    }

    /// Closes the writer: later submissions fail. Anything already
    /// queued or pending is still flushed by the surrounding loop.
    pub fn close(&mut self)
        requires
            old(self).wf(),
        ensures
            final(self).wf(),
            final(self).spec_closed(),
            final(self).spec_statuses() == old(self).spec_statuses(),
            final(self).spec_queue() == old(self).spec_queue(),
            final(self).spec_pending() == old(self).spec_pending(),
            final(self).spec_in_flight() == old(self).spec_in_flight(),
            final(self).spec_flying() == old(self).spec_flying(),
            final(self).spec_options() == old(self).spec_options(),
    {
        self.closed = true;
        proof {
            assert(self.spec_outstanding() =~= old(self).spec_outstanding());
            lemma_outstanding_parts(*old(self));
            lemma_outstanding_parts(*self);
        }
    }

    /// Submits one encoded record. Fails exactly when the writer is
    /// closed; otherwise the record joins the back of the submission
    /// queue with a fresh handle at status `Init`.
    pub fn submit(&mut self, payload: Vec<u8>) -> (r: Result<usize, BufferedWriteError>)
        requires
            old(self).wf(),
            old(self).spec_queue().len() < old(self).spec_options().channel_len,
        ensures
            final(self).wf(),
            final(self).spec_options() == old(self).spec_options(),
            final(self).spec_closed() == old(self).spec_closed(),
            final(self).spec_flying() == old(self).spec_flying(),
            final(self).spec_pending() == old(self).spec_pending(),
            final(self).spec_in_flight() == old(self).spec_in_flight(),
            match r {
                Result::Ok(h) => {
                    &&& !old(self).spec_closed()
                    &&& h == old(self).spec_statuses().len()
                    &&& final(self).spec_statuses() == old(self).spec_statuses().push(Status::Init)
                    &&& final(self).spec_queue() == old(self).spec_queue().push(
                        (h as int, payload@),
                    )
                },
                Result::Err(e) => {
                    &&& old(self).spec_closed()
                    &&& *final(self) == *old(self)
                },
            },
            forall|i: int|
                0 <= i < old(self).spec_statuses().len() ==> status_rank(
                    old(self).spec_statuses()[i],
                ) <= status_rank(#[trigger] final(self).spec_statuses()[i]),
    {
        if self.closed {
            return Err(BufferedWriteError);
        }
        let handle = self.statuses.len();
        self.statuses.push(Status::Init);
        self.queue.push(Request { handle, payload });
        proof {
            let oldw = *old(self);
            assert(self.spec_queue() =~= oldw.spec_queue().push(
                (handle as int, self.queue@.last().payload@),
            ));
            assert(self.spec_outstanding() =~= oldw.spec_outstanding().push(
                (handle as int, self.queue@.last().payload@),
            ));
            lemma_outstanding_parts(oldw);
            lemma_outstanding_parts(*self);
        }
        Ok(handle)
    }

    /// Takes the oldest submitted record into the pending queue and
    /// flips its status to `Buffered`. Returns whether the pending
    /// records now reach a threshold, i.e. whether the flush loop
    /// should cut a batch at once.
    pub fn buffer_next(&mut self) -> (flush_now: bool)
        requires
            old(self).wf(),
            old(self).spec_queue().len() > 0,
        ensures
            final(self).wf(),
            final(self).spec_options() == old(self).spec_options(),
            final(self).spec_closed() == old(self).spec_closed(),
            final(self).spec_flying() == old(self).spec_flying(),
            final(self).spec_in_flight() == old(self).spec_in_flight(),
            final(self).spec_queue() == old(self).spec_queue().skip(1),
            final(self).spec_pending() == old(self).spec_pending().push(
                old(self).spec_queue()[0],
            ),
            final(self).spec_statuses() == old(self).spec_statuses().update(
                old(self).spec_queue()[0].0,
                Status::Buffered,
            ),
            flush_now == (total_lines(final(self).spec_pending())
                >= old(self).spec_options().max_lines || total_bytes(final(self).spec_pending())
                >= old(self).spec_options().max_bytes),
            forall|i: int|
                0 <= i < old(self).spec_statuses().len() ==> status_rank(
                    old(self).spec_statuses()[i],
                ) <= status_rank(#[trigger] final(self).spec_statuses()[i]),
    {
        proof {
            lemma_outstanding_parts(*old(self));
        }
        let req = self.queue.remove(0);
        let handle = req.handle;
        proof {
            assert(req_view(req) == old(self).spec_queue()[0]);
            assert(reqs_view(self.queue@) =~= reqs_view(old(self).queue@).skip(1));
        }
        self.statuses[handle] = Status::Buffered;
        self.pending.push(req);
        proof {
            let oldw = *old(self);
            assert(self.spec_pending() =~= oldw.spec_pending().push(oldw.spec_queue()[0]));
            assert(self.spec_outstanding() =~= oldw.spec_outstanding());
            lemma_outstanding_parts(oldw);
            lemma_outstanding_parts(*self);
            let p1: int = (oldw.spec_in_flight().len() + oldw.spec_pending().len()) as int;
            assert forall|i: int|
                0 <= i < self.spec_queue().len() implies self.spec_statuses()[(
            #[trigger] self.spec_queue()[i]).0] == Status::Init by {
                assert(self.spec_queue()[i] == oldw.spec_queue()[i + 1]);
                assert(oldw.spec_outstanding()[p1].0 < oldw.spec_outstanding()[p1 + i + 1].0);
            };
            assert forall|i: int|
                0 <= i < oldw.spec_pending().len() implies self.spec_statuses()[(
            #[trigger] oldw.spec_pending()[i]).0] == Status::Buffered by {
                assert(oldw.spec_outstanding()[oldw.spec_in_flight().len() + i].0
                    < oldw.spec_outstanding()[p1].0);
            };
            assert forall|i: int|
                0 <= i < oldw.spec_in_flight().len() implies self.spec_statuses()[(
            #[trigger] oldw.spec_in_flight()[i]).0] == Status::Buffered by {
                assert(oldw.spec_outstanding()[i].0 < oldw.spec_outstanding()[p1].0);
            };
        }
        let lines = self.pending_lines();
        let bytes = self.pending_bytes();
        lines >= self.options.max_lines || bytes >= self.options.max_bytes
    }

    /// Total newline count of the pending records, saturating at the
    /// line threshold (beyond which the exact count no longer matters).
    fn pending_lines(&self) -> (r: usize)
        ensures
            if total_lines(self.spec_pending()) >= self.spec_options().max_lines {
                r >= self.spec_options().max_lines
            } else {
                r == total_lines(self.spec_pending())
            },
    {
        let n = self.pending.len();
        let mut sum: usize = 0;
        let mut i: usize = 0;
        while i < n
            invariant
                i <= n,
                n == self.pending@.len(),
                sum <= self.spec_options().max_lines,
                if total_lines(self.spec_pending().take(i as int))
                    >= self.spec_options().max_lines {
                    sum >= self.spec_options().max_lines
                } else {
                    sum == total_lines(self.spec_pending().take(i as int))
                },
            decreases n - i,
        {
            let lines = count_newlines(&self.pending[i].payload);
            proof {
                lemma_prefix_sums(self.spec_pending(), i + 1);
                assert(self.spec_pending()[i as int] == req_view(self.pending@[i as int]));
                lemma_lines_nonneg(self.pending@[i as int].payload@);
                lemma_prefix_lines_nonneg(self.spec_pending(), i as int);
            }
            if sum >= self.options.max_lines || lines >= self.options.max_lines - sum {
                sum = self.options.max_lines;
            } else {
                sum = sum + lines;
            }
            i += 1;
        }
        proof {
            assert(self.spec_pending().take(n as int) =~= self.spec_pending());
        }
        sum
    }

    /// Total byte size of the pending records, saturating at the byte
    /// threshold.
    fn pending_bytes(&self) -> (r: usize)
        ensures
            if total_bytes(self.spec_pending()) >= self.spec_options().max_bytes {
                r >= self.spec_options().max_bytes
            } else {
                r == total_bytes(self.spec_pending())
            },
    {
        let n = self.pending.len();
        let mut sum: usize = 0;
        let mut i: usize = 0;
        while i < n
            invariant
                i <= n,
                n == self.pending@.len(),
                sum <= self.spec_options().max_bytes,
                if total_bytes(self.spec_pending().take(i as int))
                    >= self.spec_options().max_bytes {
                    sum >= self.spec_options().max_bytes
                } else {
                    sum == total_bytes(self.spec_pending().take(i as int))
                },
            decreases n - i,
        {
            let bytes = self.pending[i].payload.len();
            proof {
                lemma_prefix_sums(self.spec_pending(), i + 1);
                assert(self.spec_pending()[i as int] == req_view(self.pending@[i as int]));
                lemma_prefix_bytes_nonneg(self.spec_pending(), i as int);
            }
            if sum >= self.options.max_bytes || bytes >= self.options.max_bytes - sum {
                sum = self.options.max_bytes;
            } else {
                sum = sum + bytes;
            }
            i += 1;
        }
        proof {
            assert(self.spec_pending().take(n as int) =~= self.spec_pending());
        }
        sum
    }

    /// Cuts the next batch: moves the oldest pending records, up to the
    /// thresholds, into the in-flight batch and returns their payloads
    /// concatenated in submission order. The caller performs the sink
    /// write and then reports the outcome.
    pub fn begin_flush(&mut self) -> (body: Vec<u8>)
        requires
            old(self).wf(),
            !old(self).spec_flying(),
            old(self).spec_pending().len() > 0,
        ensures
            final(self).wf(),
            final(self).spec_options() == old(self).spec_options(),
            final(self).spec_closed() == old(self).spec_closed(),
            final(self).spec_flying(),
            final(self).spec_statuses() == old(self).spec_statuses(),
            final(self).spec_queue() == old(self).spec_queue(),
            ({
                let k = spec_batch_size(
                    old(self).spec_pending(),
                    old(self).spec_options().max_lines as int,
                    old(self).spec_options().max_bytes as int,
                );
                &&& 1 <= k <= old(self).spec_pending().len()
                &&& final(self).spec_in_flight() == old(self).spec_pending().take(k)
                &&& final(self).spec_pending() == old(self).spec_pending().skip(k)
                &&& body@ == flatten_payloads(old(self).spec_pending().take(k))
            }),
    {
        let k = self.batch_len();
        let ghost old_pending = self.spec_pending();
        let mut rest = self.pending.split_off(k);
        core::mem::swap(&mut self.pending, &mut rest);
        core::mem::swap(&mut self.in_flight, &mut rest);
        self.flying = true;
        proof {
            let oldw = *old(self);
            assert(oldw.spec_in_flight().len() == 0);
            assert(self.spec_in_flight() =~= old_pending.take(k as int));
            assert(self.spec_pending() =~= old_pending.skip(k as int));
            assert(self.spec_outstanding() =~= oldw.spec_outstanding());
            lemma_outstanding_parts(oldw);
            lemma_outstanding_parts(*self);
        }
        let ghost snap = *self;
        let mut body: Vec<u8> = Vec::new();
        let n = self.in_flight.len();
        let mut i: usize = 0;
        while i < n
            invariant
                i <= n,
                n == self.in_flight@.len(),
                *self == snap,
                body@ == flatten_payloads(self.spec_in_flight().take(i as int)),
            decreases n - i,
        {
            body.extend_from_slice(self.in_flight[i].payload.as_slice());
            i += 1;
            proof {
                lemma_prefix_sums(self.spec_in_flight(), i as int);
                assert(self.spec_in_flight()[i - 1] == req_view(self.in_flight@[i - 1]));
            }
        }
        proof {
            assert(self.spec_in_flight().take(n as int) =~= self.spec_in_flight());
        }
        body
    }

    /// How many pending records the next batch takes; mirrors
    /// `spec_batch_size`.
    fn batch_len(&self) -> (k: usize)
        requires
            self.wf(),
            self.spec_pending().len() > 0,
        ensures
            k == spec_batch_size(
                self.spec_pending(),
                self.spec_options().max_lines as int,
                self.spec_options().max_bytes as int,
            ),
            1 <= k <= self.spec_pending().len(),
    {
        let n = self.pending.len();
        let mut k: usize = 0;
        let mut ml = self.options.max_lines;
        let mut mb = self.options.max_bytes;
        proof {
            assert(self.spec_pending().skip(0) =~= self.spec_pending());
        }
        loop
            invariant
                0 <= k < n,
                n == self.pending@.len(),
                ml >= 1,
                mb >= 1,
                spec_batch_size(
                    self.spec_pending(),
                    self.spec_options().max_lines as int,
                    self.spec_options().max_bytes as int,
                ) == k + spec_batch_size(self.spec_pending().skip(k as int), ml as int, mb as int),
            decreases n - k,
        {
            let lines = count_newlines(&self.pending[k].payload);
            let bytes = self.pending[k].payload.len();
            proof {
                assert(self.spec_pending().skip(k as int)[0] == req_view(
                    self.pending@[k as int],
                ));
            }
            if lines >= ml || bytes >= mb || k + 1 == n {
                proof {
                    let rest = self.spec_pending().skip(k as int);
                    assert(rest.len() == n - k);
                    assert(lines == lines_of(rest[0].1));
                    assert(bytes == rest[0].1.len());
                    if !(lines >= ml || bytes >= mb) {
                        reveal_with_fuel(spec_batch_size, 2);
                        assert(rest.skip(1) =~= self.spec_pending().skip(k as int + 1));
                        assert(rest.skip(1).len() == 0);
                        assert(spec_batch_size(rest, ml as int, mb as int) == 1);
                    } else {
                        assert(spec_batch_size(rest, ml as int, mb as int) == 1);
                    }
                    assert(k + 1 == spec_batch_size(
                        self.spec_pending(),
                        self.spec_options().max_lines as int,
                        self.spec_options().max_bytes as int,
                    ));
                    assert(k + 1 <= self.spec_pending().len());
                }
                return k + 1;
            }
            proof {
                assert(self.spec_pending().skip(k as int).skip(1) =~= self.spec_pending().skip(
                    k as int + 1,
                ));
                lemma_lines_nonneg(self.pending@[k as int].payload@);
            }
            ml = ml - lines;
            mb = mb - bytes;
            k += 1;
        }
    }

    /// The sink accepted the batch: every record in it reaches status
    /// `Accepted` and leaves the writer.
    pub fn flush_succeeded(&mut self)
        requires
            old(self).wf(),
            old(self).spec_flying(),
        ensures
            final(self).wf(),
            final(self).spec_options() == old(self).spec_options(),
            final(self).spec_closed() == old(self).spec_closed(),
            !final(self).spec_flying(),
            final(self).spec_in_flight() == Seq::<(int, Seq<u8>)>::empty(),
            final(self).spec_pending() == old(self).spec_pending(),
            final(self).spec_queue() == old(self).spec_queue(),
            final(self).spec_statuses().len() == old(self).spec_statuses().len(),
            forall|h: int|
                0 <= h < old(self).spec_statuses().len() ==> #[trigger] final(self).spec_statuses()[h] == if exists|j: int|
                    0 <= j < old(self).spec_in_flight().len() && (#[trigger] old(self).spec_in_flight()[j]).0 == h {
                    Status::Accepted
                } else {
                    old(self).spec_statuses()[h]
                },
            forall|i: int|
                0 <= i < old(self).spec_statuses().len() ==> status_rank(
                    old(self).spec_statuses()[i],
                ) <= status_rank(#[trigger] final(self).spec_statuses()[i]),
    {
        let n = self.in_flight.len();
        let mut i: usize = 0;
        while i < n
            invariant
                i <= n,
                n == self.in_flight@.len(),
                self.options == old(self).options,
                self.closed == old(self).closed,
                self.flying == old(self).flying,
                self.queue == old(self).queue,
                self.pending == old(self).pending,
                self.in_flight == old(self).in_flight,
                old(self).wf(),
                self.statuses@.len() == old(self).statuses@.len(),
                forall|h: int|
                    0 <= h < self.statuses@.len() ==> #[trigger] self.statuses@[h] == if exists|
                        j: int,
                    |
                        0 <= j < i && (#[trigger] old(self).spec_in_flight()[j]).0 == h {
                        Status::Accepted
                    } else {
                        old(self).spec_statuses()[h]
                    },
            decreases n - i,
        {
            let h = self.in_flight[i].handle;
            proof {
                lemma_outstanding_parts(*old(self));
                assert(old(self).spec_in_flight()[i as int] == req_view(
                    old(self).in_flight@[i as int],
                ));
                assert(old(self).spec_outstanding()[i as int].0 == h);
            }
            self.statuses[h] = Status::Accepted;
            i += 1;
            proof {
                assert forall|h2: int|
                    0 <= h2 < self.statuses@.len() implies #[trigger] self.statuses@[h2]
                    == if exists|j: int|
                    0 <= j < i && (#[trigger] old(self).spec_in_flight()[j]).0 == h2 {
                    Status::Accepted
                } else {
                    old(self).spec_statuses()[h2]
                } by {
                    if h2 == h {
                        assert((old(self).spec_in_flight()[i - 1]).0 == h2);
                    }
                };
            }
        }
        self.in_flight.clear();
        self.flying = false;
        proof {
            let oldw = *old(self);
            lemma_outstanding_parts(oldw);
            assert(self.spec_in_flight() =~= Seq::<(int, Seq<u8>)>::empty());
            lemma_outstanding_parts(*self);
            assert(self.spec_outstanding() =~= oldw.spec_outstanding().skip(
                oldw.spec_in_flight().len() as int,
            ));
            let shift: int = oldw.spec_in_flight().len() as int;
            assert forall|i2: int|
                0 <= i2 < self.spec_pending().len() implies self.spec_statuses()[(
            #[trigger] self.spec_pending()[i2]).0] == Status::Buffered by {
                let h = self.spec_pending()[i2].0;
                assert(oldw.spec_pending()[i2].0 == h);
                if exists|j: int|
                    0 <= j < oldw.spec_in_flight().len() && (#[trigger] oldw.spec_in_flight()[j]).0 == h {
                    let j = choose|j: int|
                        0 <= j < oldw.spec_in_flight().len() && (#[trigger] oldw.spec_in_flight()[j]).0 == h;
                    assert(oldw.spec_outstanding()[j].0 < oldw.spec_outstanding()[shift + i2].0);
                }
            };
            assert forall|i2: int|
                0 <= i2 < self.spec_queue().len() implies self.spec_statuses()[(
            #[trigger] self.spec_queue()[i2]).0] == Status::Init by {
                let h = self.spec_queue()[i2].0;
                assert(oldw.spec_queue()[i2].0 == h);
                let pos: int = shift + oldw.spec_pending().len() + i2;
                if exists|j: int|
                    0 <= j < oldw.spec_in_flight().len() && (#[trigger] oldw.spec_in_flight()[j]).0 == h {
                    let j = choose|j: int|
                        0 <= j < oldw.spec_in_flight().len() && (#[trigger] oldw.spec_in_flight()[j]).0 == h;
                    assert(oldw.spec_outstanding()[j].0 < oldw.spec_outstanding()[pos].0);
                }
            };
        }
    }

    /// The sink rejected the batch: the records return to the front of
    /// the pending queue in their original order, still at status
    /// `Buffered`, and will be retried before anything newer.
    pub fn flush_failed(&mut self)
        requires
            old(self).wf(),
            old(self).spec_flying(),
        ensures
            final(self).wf(),
            final(self).spec_options() == old(self).spec_options(),
            final(self).spec_closed() == old(self).spec_closed(),
            !final(self).spec_flying(),
            final(self).spec_in_flight() == Seq::<(int, Seq<u8>)>::empty(),
            final(self).spec_pending() == old(self).spec_in_flight() + old(self).spec_pending(),
            final(self).spec_queue() == old(self).spec_queue(),
            final(self).spec_statuses() == old(self).spec_statuses(),
    {
        let mut batch: Vec<Request> = Vec::new();
        core::mem::swap(&mut self.in_flight, &mut batch);
        batch.append(&mut self.pending);
        core::mem::swap(&mut self.pending, &mut batch);
        self.flying = false;
        proof {
            let oldw = *old(self);
            assert(self.spec_in_flight() =~= Seq::<(int, Seq<u8>)>::empty());
            assert(self.spec_pending() =~= oldw.spec_in_flight() + oldw.spec_pending());
            assert(self.spec_outstanding() =~= oldw.spec_outstanding());
            lemma_outstanding_parts(oldw);
            lemma_outstanding_parts(*self);
            assert forall|i2: int|
                0 <= i2 < self.spec_pending().len() implies self.spec_statuses()[(
            #[trigger] self.spec_pending()[i2]).0] == Status::Buffered by {
                if i2 < oldw.spec_in_flight().len() {
                    assert(self.spec_pending()[i2] == oldw.spec_in_flight()[i2]);
                } else {
                    assert(self.spec_pending()[i2] == oldw.spec_pending()[i2 - oldw
                        .spec_in_flight().len()]);
                }
            };
        }
    }
}

/// A nonnegativity fact for prefix sums of line counts.
proof fn lemma_prefix_lines_nonneg(s: Seq<(int, Seq<u8>)>, i: int)
    requires
        0 <= i <= s.len(),
    ensures
        total_lines(s.take(i)) >= 0,
    decreases i,
{
    if i > 0 {
        lemma_prefix_sums(s, i);
        lemma_prefix_lines_nonneg(s, i - 1);
        lemma_lines_nonneg(s[i - 1].1);
    } else {
        assert(s.take(0) =~= Seq::<(int, Seq<u8>)>::empty());
    }
}

proof fn lemma_prefix_bytes_nonneg(s: Seq<(int, Seq<u8>)>, i: int)
    requires
        0 <= i <= s.len(),
    ensures
        total_bytes(s.take(i)) >= 0,
    decreases i,
{
    if i > 0 {
        lemma_prefix_sums(s, i);
        lemma_prefix_bytes_nonneg(s, i - 1);
    } else {
        assert(s.take(0) =~= Seq::<(int, Seq<u8>)>::empty());
    }
}

/// Indexing of the three-part outstanding sequence, unfolded once so
/// the well-formedness quantifiers connect to the parts.
proof fn lemma_outstanding_parts(w: BatchWriter)
    ensures
        w.spec_outstanding().len() == w.spec_in_flight().len() + w.spec_pending().len()
            + w.spec_queue().len(),
        forall|i: int|
            0 <= i < w.spec_in_flight().len() ==> w.spec_outstanding()[i] == #[trigger] w
                .spec_in_flight()[i],
        forall|i: int|
            0 <= i < w.spec_pending().len() ==> w.spec_outstanding()[w.spec_in_flight().len()
                + i] == #[trigger] w.spec_pending()[i],
        forall|i: int|
            0 <= i < w.spec_queue().len() ==> w.spec_outstanding()[w.spec_in_flight().len()
                + w.spec_pending().len() + i] == #[trigger] w.spec_queue()[i],
{
}

} // verus!
