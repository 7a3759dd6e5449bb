//! The pulse-counting energy meter.
//!
//! The meter publishes one message per pulse; each carries a cumulative
//! pulse count (one pulse per watt-hour), the meter's own microsecond
//! clock, and the momentary power. The count runs through the same
//! offset-correcting normalizer as the relays' energy counters.

use vstd::prelude::*;
use crate::counter::step_offset;
use crate::writer::{BatchWriter, BufferedWriteError, Status};
use crate::encode::{encode_impulse_line, impulse_line};

verus! {

/// One pulse event, as decoded from the meter's message.
#[derive(Clone, Copy, Debug)]
pub struct Impulse {
    /// Watt-hours since the meter was set up.
    pub impulse_count: u32,
    /// Microseconds since the meter was set up.
    pub clock: u64,
    /// Microseconds between the last two impulses.
    pub interval: u32,
    /// Power since the previous impulse, in watts (rounded).
    pub power: i64,
}

/// Normalizer state for the meter's cumulative count; created lazily on
/// the first impulse and kept for the process lifetime.
#[derive(Clone, Copy, Debug)]
pub struct ImpulseContext {
    /// The count reported by the previous impulse.
    pub previous_count: i64,
    /// What is subtracted from a reported count to normalize it.
    pub offset: i64,
}

impl ImpulseContext {
    pub open spec fn wf(self) -> bool {
        0 <= self.offset <= self.previous_count
    }

    /// Starts the normalizer at the first observed count, so that the
    /// first normalized value is zero.
    pub fn with_initial_count(count: i64) -> (r: ImpulseContext)
        requires
            0 <= count,
        ensures
            r.previous_count == count,
            r.offset == count,
            r.wf(),
    {
        ImpulseContext { previous_count: count, offset: count }
    }

    /// Feeds one reported count through the normalizer: a decrease
    /// moves the offset to the new count (a reset), and the normalized
    /// value is the count minus the offset.
    pub fn observe(&mut self, raw: i64) -> (norm: i64)
        requires
            old(self).wf(),
            0 <= raw,
        ensures
            final(self).wf(),
            final(self).previous_count == raw,
            final(self).offset == step_offset(
                Some(old(self).previous_count as int),
                old(self).offset as int,
                raw as int,
            ),
            norm == raw - final(self).offset,
            0 <= norm <= raw,
    {
        if raw < self.previous_count {
            self.offset = raw;
        }
        self.previous_count = raw;
        raw - self.offset
    }

    /// Handles one impulse: normalizes the count and submits the
    /// encoded record to the writer. The record carries the meter's
    /// uptime in seconds, the normalized energy, the collector's uptime
    /// and the momentary power, at the given timestamp.
    pub fn submit_impulse(
        &mut self,
        impulse: &Impulse,
        timestamp_ms: i64,
        monitor_uptime_s: u64,
        writer: &mut BatchWriter,
    ) -> (r: Result<usize, BufferedWriteError>)
        requires
            old(self).wf(),
            old(writer).wf(),
            old(writer).spec_queue().len() < old(writer).spec_options().channel_len,
        ensures
            final(self).wf(),
            final(writer).wf(),
            final(self).previous_count == impulse.impulse_count,
            final(self).offset == step_offset(
                Some(old(self).previous_count as int),
                old(self).offset as int,
                impulse.impulse_count as int,
            ),
            match r {
                Result::Ok(h) => {
                    &&& !old(writer).spec_closed()
                    &&& h == old(writer).spec_statuses().len()
                    &&& final(writer).spec_statuses() == old(writer).spec_statuses().push(
                        Status::Init,
                    )
                    &&& final(writer).spec_queue() == old(writer).spec_queue().push(
                        (
                            h as int,
                            impulse_line(
                                impulse.clock / 1_000_000,
                                (impulse.impulse_count - final(self).offset) as i64,
                                monitor_uptime_s,
                                impulse.power,
                                timestamp_ms,
                            ),
                        ),
                    )
                },
                Result::Err(e) => old(writer).spec_closed() && *final(writer) == *old(writer),
            },
    {
        let energy = self.observe(impulse.impulse_count as i64);
        let device_uptime = impulse.clock / 1_000_000;
        let line = encode_impulse_line(
            device_uptime,
            energy,
            monitor_uptime_s,
            impulse.power,
            timestamp_ms,
        );
        writer.submit(line)
    }
}

} // verus!
