//! Per-device correlation state and the device registry.
//!
//! A device's two fragment streams are keyed by a reconciled timestamp
//! and paired in its [`FragmentBuffer`]; a completed pair is promoted
//! to a [`ProcessedTelemetry`] record. Promotion is strictly monotonic:
//! a fragment whose timestamp is at or before the newest promoted
//! timestamp is dropped without touching any state, which protects the
//! completed series against replayed or reordered messages.
//!
//! Every state change is mirrored by a spec-level transition function
//! (`sns_step`, `sts_step`); the laws about promotion are proved over
//! those transitions.

use vstd::prelude::*;
use crate::buffer::{FragmentBuffer, MaybeTelemetry};
use crate::counter::{step_offset, CounterNormalizer};
use crate::encode::{encode_power_line, power_line};
use crate::power_state::PowerState;
use crate::strutil::{lemma_lex_lt_connected, lemma_lex_lt_trans, lex_lt, str_eq, str_lt};
use crate::telemetry::{Energy, ProcessedTelemetry, StatusSNS, StatusSTS};
use crate::timestamp::{hour_of_ms, replace_hour, spec_replace_hour};
use crate::topic::TopicScheme;
use crate::writer::{BatchWriter, Status};

verus! {

/// One partial, timestamped report from a device: either a sensor
/// reading or a status reading.
#[derive(Clone, Debug)]
pub enum TelemetryFragment {
    Sensor(StatusSNS),
    State(StatusSTS),
}

pub open spec fn fragment_wf(f: TelemetryFragment) -> bool {
    match f {
        TelemetryFragment::Sensor(sns) => sns.wf(),
        TelemetryFragment::State(sts) => sts.wf(),
    }
}

pub open spec fn fragment_time(f: TelemetryFragment) -> int {
    match f {
        TelemetryFragment::Sensor(sns) => sns.time as int,
        TelemetryFragment::State(sts) => sts.time as int,
    }
}

/// A promoted record with its delivery-status handle, once the record
/// has been handed to the writer.
#[derive(Clone, Copy, Debug)]
pub struct StoredRecord {
    /// The reconciled timestamp the pair was keyed by.
    pub timestamp: i64,
    pub telemetry: ProcessedTelemetry,
    /// The writer handle of the encoded record, once submitted.
    pub status: Option<usize>,
}

/// The ghost image of one device's correlation state.
pub struct DeviceView {
    pub id: Seq<char>,
    /// Partial fragments, keyed by reconciled timestamp.
    pub buffer: Map<int, MaybeTelemetry>,
    /// Promoted records, in promotion order.
    pub records: Seq<StoredRecord>,
    /// The raw counter value of the previous sensor fragment, if any.
    pub norm_last: Option<int>,
    /// The counter normalizer's current offset.
    pub norm_offset: int,
    /// The power state of the most recent (non-stale) status fragment.
    pub power_state: Option<PowerState>,
    /// The timestamp of the newest promoted record.
    pub newest_promoted: Option<i64>,
}

/// A device that was just registered: nothing seen yet.
pub open spec fn fresh_device(id: Seq<char>) -> DeviceView {
    DeviceView {
        id,
        buffer: Map::empty(),
        records: Seq::empty(),
        norm_last: Option::None,
        norm_offset: 0,
        power_state: Option::None,
        newest_promoted: Option::None,
    }
}

/// The timestamp a fragment is keyed by: the device's own timestamp
/// with the hour-of-day taken from the arrival timestamp, which makes
/// up for the missing timezone offset in the device clock.
pub open spec fn fragment_key(device_ms: int, arrival_ms: int) -> int {
    spec_replace_hour(device_ms, hour_of_ms(arrival_ms))
}

/// A timestamp at or before the newest promoted timestamp is already
/// superseded.
pub open spec fn is_stale(v: DeviceView, t: int) -> bool {
    match v.newest_promoted {
        Option::Some(p) => t <= p,
        Option::None => false,
    }
}

/// The completed record a pair produces.
pub open spec fn record_of(e: Energy, sts: StatusSTS) -> ProcessedTelemetry {
    ProcessedTelemetry {
        energy: e.energy_lifetime,
        power: e.power as i64,
        power_factor: e.power_factor as i64,
        apparent_power: e.apparent_power as i64,
        reactive_power: e.reactive_power as i64,
        voltage: e.voltage as i64,
        current: e.current as i64,
        power_state: sts.power_state,
    }
}

/// The effect of one sensor fragment: drop it if its key is stale;
/// otherwise normalize the energy counter, store the fragment, and
/// promote the pair if the status fragment at the same key is present.
pub open spec fn sns_step(v: DeviceView, sns: StatusSNS, arrival_ms: int) -> (
    DeviceView,
    Option<ProcessedTelemetry>,
) {
    let t = fragment_key(sns.time as int, arrival_ms);
    if is_stale(v, t) {
        (v, Option::None)
    } else {
        let new_offset = step_offset(v.norm_last, v.norm_offset, sns.energy.energy_lifetime as int);
        let adjusted = StatusSNS {
            energy: Energy {
                energy_lifetime: (sns.energy.energy_lifetime - new_offset) as i64,
                ..sns.energy
            },
            ..sns
        };
        let v1 = DeviceView {
            norm_last: Option::Some(sns.energy.energy_lifetime as int),
            norm_offset: new_offset,
            ..v
        };
        let existing_sts = if v.buffer.contains_key(t) {
            v.buffer[t].sts
        } else {
            Option::None
        };
        match existing_sts {
            Option::Some(sts) => {
                let rec = record_of(adjusted.energy, sts);
                (
                    DeviceView {
                        buffer: v1.buffer.remove(t),
                        records: v1.records.push(
                            StoredRecord {
                                timestamp: t as i64,
                                telemetry: rec,
                                status: Option::None,
                            },
                        ),
                        newest_promoted: Option::Some(t as i64),
                        ..v1
                    },
                    Option::Some(rec),
                )
            },
            Option::None => {
                (
                    DeviceView {
                        buffer: v1.buffer.insert(
                            t,
                            MaybeTelemetry { sns: Option::Some(adjusted), sts: Option::None },
                        ),
                        ..v1
                    },
                    Option::None,
                )
            },
        }
    }
}

/// The effect of one status fragment: drop it if its key is stale;
/// otherwise record the power state, store the fragment, and promote
/// the pair if the sensor fragment at the same key is present (its
/// energy was already normalized when it was stored).
pub open spec fn sts_step(v: DeviceView, sts: StatusSTS, arrival_ms: int) -> (
    DeviceView,
    Option<ProcessedTelemetry>,
) {
    let t = fragment_key(sts.time as int, arrival_ms);
    if is_stale(v, t) {
        (v, Option::None)
    } else {
        let v1 = DeviceView { power_state: Option::Some(sts.power_state), ..v };
        let existing_sns = if v.buffer.contains_key(t) {
            v.buffer[t].sns
        } else {
            Option::None
        };
        match existing_sns {
            Option::Some(sns) => {
                let rec = record_of(sns.energy, sts);
                (
                    DeviceView {
                        buffer: v1.buffer.remove(t),
                        records: v1.records.push(
                            StoredRecord {
                                timestamp: t as i64,
                                telemetry: rec,
                                status: Option::None,
                            },
                        ),
                        newest_promoted: Option::Some(t as i64),
                        ..v1
                    },
                    Option::Some(rec),
                )
            },
            Option::None => {
                (
                    DeviceView {
                        buffer: v1.buffer.insert(
                            t,
                            MaybeTelemetry { sns: Option::None, sts: Option::Some(sts) },
                        ),
                        ..v1
                    },
                    Option::None,
                )
            },
        }
    }
}

pub open spec fn fragment_step(v: DeviceView, f: TelemetryFragment, arrival_ms: int) -> (
    DeviceView,
    Option<ProcessedTelemetry>,
) {
    match f {
        TelemetryFragment::Sensor(sns) => sns_step(v, sns, arrival_ms),
        TelemetryFragment::State(sts) => sts_step(v, sts, arrival_ms),
    }
}

/// A fragment never changes which device the state belongs to.
pub proof fn lemma_step_preserves_id(v: DeviceView, f: TelemetryFragment, arrival_ms: int)
    ensures
        fragment_step(v, f, arrival_ms).0.id == v.id,
{
}

/// Well-formedness of a device's ghost state: the normalizer invariant
/// holds, promoted timestamps strictly increase, and the newest
/// promoted timestamp is the last one.
pub open spec fn view_wf(v: DeviceView) -> bool {
    &&& match v.norm_last {
        Option::None => v.norm_offset == 0,
        Option::Some(l) => 0 <= v.norm_offset <= l,
    }
    &&& forall|i: int, j: int|
        0 <= i < j < v.records.len() ==> (#[trigger] v.records[i]).timestamp < (
        #[trigger] v.records[j]).timestamp
    &&& v.newest_promoted == (if v.records.len() > 0 {
        Option::Some(v.records.last().timestamp)
    } else {
        Option::<i64>::None
    })
}

/// A fragment at an already-superseded timestamp is dropped whole: no
/// record is produced and nothing is mutated, the counter normalizer
/// included.
pub proof fn lemma_stale_fragment_dropped(v: DeviceView, f: TelemetryFragment, arrival_ms: int)
    requires
        is_stale(v, fragment_key(fragment_time(f), arrival_ms)),
    ensures
        fragment_step(v, f, arrival_ms) == (v, Option::<ProcessedTelemetry>::None),
{
}

/// A fragment produces a record exactly when it is not stale and the
/// complementary fragment kind is already buffered at the same
/// reconciled timestamp: a pair is promoted when and only when both
/// kinds have been seen at that key.
pub proof fn lemma_promotion_iff_pair(v: DeviceView, f: TelemetryFragment, arrival_ms: int)
    ensures
        ({
            let t = fragment_key(fragment_time(f), arrival_ms);
            fragment_step(v, f, arrival_ms).1 is Some <==> (!is_stale(v, t)
                && v.buffer.contains_key(t) && (match f {
                TelemetryFragment::Sensor(_) => v.buffer[t].sts is Some,
                TelemetryFragment::State(_) => v.buffer[t].sns is Some,
            }))
        }),
{
}

/// A fragment's reconciled key fits the timestamp range whenever the
/// fragment itself is within range.
pub proof fn lemma_fragment_key_bounds(device_ms: int, arrival_ms: int)
    requires
        0 <= device_ms < i64::MAX - 86_400_000,
        0 <= arrival_ms,
    ensures
        0 <= fragment_key(device_ms, arrival_ms) < i64::MAX,
{
    let dd = device_ms % 86_400_000;
    let ad = arrival_ms % 86_400_000;
    let dh = dd / 3_600_000;
    let ah = ad / 3_600_000;
    assert(0 <= dd < 86_400_000);
    assert(0 <= ad < 86_400_000);
    assert(0 <= dh <= 23);
    assert(0 <= ah <= 23);
    vstd::arithmetic::div_mod::lemma_fundamental_div_mod(dd, 3_600_000);
    vstd::arithmetic::div_mod::lemma_fundamental_div_mod(device_ms, 86_400_000);
    assert(dh * 3_600_000 <= dd);
    assert(device_ms - dd >= 0);
}

/// One step preserves well-formedness and only appends to the promoted
/// records.
pub proof fn lemma_step_preserves_wf(v: DeviceView, f: TelemetryFragment, arrival_ms: int)
    requires
        view_wf(v),
        fragment_wf(f),
        0 <= arrival_ms,
    ensures
        view_wf(fragment_step(v, f, arrival_ms).0),
        v.records.is_prefix_of(fragment_step(v, f, arrival_ms).0.records),
{
    lemma_fragment_key_bounds(fragment_time(f), arrival_ms);
    let t = fragment_key(fragment_time(f), arrival_ms);
    let (v2, out) = fragment_step(v, f, arrival_ms);
    if out is Some {
        assert(v2.records.drop_last() =~= v.records);
        assert(t as i64 == t);
        if v.records.len() > 0 {
            assert(v.records.last().timestamp < t);
            assert forall|i: int|
                0 <= i < v.records.len() implies (#[trigger] v.records[i]).timestamp < t by {
                if i < v.records.len() - 1 {
                    assert(v.records[i].timestamp < v.records[v.records.len() - 1].timestamp);
                }
            }
        }
        assert(v.records =~= v2.records.take(v.records.len() as int));
    } else {
        assert(v.records =~= v2.records.take(v.records.len() as int));
    }
}

/// Applies a whole sequence of (fragment, arrival) events.
pub open spec fn apply_fragments(v: DeviceView, events: Seq<(TelemetryFragment, int)>) -> DeviceView
    decreases events.len(),
{
    if events.len() == 0 {
        v
    } else {
        apply_fragments(fragment_step(v, events[0].0, events[0].1).0, events.skip(1))
    }
}

/// Over any sequence of fragments delivered to one device, promoted
/// records only accumulate, their timestamps strictly increase, and so
/// a completed record is produced at most once per timestamp.
pub proof fn lemma_promotions_strictly_increase(
    v: DeviceView,
    events: Seq<(TelemetryFragment, int)>,
)
    requires
        view_wf(v),
        forall|i: int|
            0 <= i < events.len() ==> fragment_wf((#[trigger] events[i]).0) && 0 <= events[i].1,
    ensures
        view_wf(apply_fragments(v, events)),
        v.records.is_prefix_of(apply_fragments(v, events).records),
        forall|i: int, j: int|
            0 <= i < j < apply_fragments(v, events).records.len() ==> (#[trigger] apply_fragments(
                v,
                events,
            ).records[i]).timestamp != (#[trigger] apply_fragments(v, events).records[j]).timestamp,
    decreases events.len(),
{
    if events.len() == 0 {
    } else {
        lemma_step_preserves_wf(v, events[0].0, events[0].1);
        let v1 = fragment_step(v, events[0].0, events[0].1).0;
        lemma_promotions_strictly_increase(v1, events.skip(1));
        let r2 = apply_fragments(v1, events.skip(1)).records;
        assert(v.records =~= r2.subrange(0, v.records.len() as int));
    }
}

/// How many promoted records still lack a delivery-status handle.
pub open spec fn none_count(s: Seq<StoredRecord>) -> int
    decreases s.len(),
{
    if s.len() == 0 {
        0
    } else {
        none_count(s.drop_last()) + if s.last().status is None {
            1int
        } else {
            0int
        }
    }
}

/// The queue entries one submission round appends: one power line per
/// unsent record, in record order, with sequential handles starting at
/// `base`, capped at `room` submissions (the writer's free capacity).
pub open spec fn submit_ext(id: Seq<char>, s: Seq<StoredRecord>, base: int, room: int) -> Seq<
    (int, Seq<u8>),
>
    decreases s.len(),
{
    if s.len() == 0 {
        Seq::empty()
    } else {
        submit_ext(id, s.drop_last(), base, room) + (
        if s.last().status is None && none_count(s.drop_last()) < room {
            seq![
                (
                    base + none_count(s.drop_last()),
                    power_line(id, s.last().telemetry.power, s.last().timestamp),
                ),
            ]
        } else {
            Seq::empty()
        })
    }
}

/// What one record looks like after a submission round: unsent records
/// within the writer's room gain the next sequential handle, the rest
/// are untouched.
pub open spec fn expected_record(s: Seq<StoredRecord>, i: int, base: int, room: int)
    -> StoredRecord {
    if s[i].status is None && none_count(s.take(i)) < room {
        StoredRecord {
            timestamp: s[i].timestamp,
            telemetry: s[i].telemetry,
            status: Option::Some((base + none_count(s.take(i))) as usize),
        }
    } else {
        s[i]
    }
}

pub proof fn lemma_none_count_bounds(s: Seq<StoredRecord>)
    ensures
        0 <= none_count(s) <= s.len(),
    decreases s.len(),
{
    if s.len() > 0 {
        lemma_none_count_bounds(s.drop_last());
    }
}

/// The appended entries number as many unsent records as fit the room.
pub proof fn lemma_submit_ext_len(id: Seq<char>, s: Seq<StoredRecord>, base: int, room: int)
    ensures
        submit_ext(id, s, base, room).len() == if room <= 0 {
            0int
        } else if none_count(s) <= room {
            none_count(s)
        } else {
            room
        },
    decreases s.len(),
{
    lemma_none_count_bounds(s);
    if s.len() > 0 {
        lemma_submit_ext_len(id, s.drop_last(), base, room);
        lemma_none_count_bounds(s.drop_last());
    }
}

/// One step of the submission fold, phrased over prefixes.
proof fn lemma_submit_step(id: Seq<char>, s: Seq<StoredRecord>, base: int, room: int, i: int)
    requires
        0 <= i < s.len(),
    ensures
        none_count(s.take(i + 1)) == none_count(s.take(i)) + if s[i].status is None {
            1int
        } else {
            0int
        },
        submit_ext(id, s.take(i + 1), base, room) == submit_ext(id, s.take(i), base, room) + (
        if s[i].status is None && none_count(s.take(i)) < room {
            seq![(base + none_count(s.take(i)), power_line(id, s[i].telemetry.power, s[i].timestamp))]
        } else {
            Seq::empty()
        }),
{
    assert(s.take(i + 1).drop_last() =~= s.take(i));
    assert(s.take(i + 1).last() == s[i]);
}

/// One device's correlation state: the fragment buffer, the promoted
/// records, the energy normalizer and the latest power state.
#[derive(Debug)]
pub struct TasmotaDevice {
    id: String,
    telemetry: Vec<StoredRecord>,
    telemetry_buffer: FragmentBuffer,
    energy_norm: CounterNormalizer,
    power_state: Option<PowerState>,
    newest_promoted: Option<i64>,
}

impl View for TasmotaDevice {
    type V = DeviceView;

    closed spec fn view(&self) -> DeviceView {
        DeviceView {
            id: self.id@,
            buffer: self.telemetry_buffer@,
            records: self.telemetry@,
            norm_last: self.energy_norm.spec_last_int(),
            norm_offset: self.energy_norm.offset as int,
            power_state: self.power_state,
            newest_promoted: self.newest_promoted,
        }
    }
}

impl TasmotaDevice {
    pub closed spec fn wf(&self) -> bool {
        &&& self.telemetry_buffer.wf()
        &&& self.energy_norm.wf()
        &&& view_wf(self@)
    }

    /// Well-formedness of the representation carries the ghost
    /// invariant.
    pub proof fn lemma_wf_view(&self)
        requires
            self.wf(),
        ensures
            view_wf(self@),
    {
    }

    pub fn new(id: String) -> (r: TasmotaDevice)
        ensures
            r.wf(),
            r@ == fresh_device(id@),
    {
        let r = TasmotaDevice {
            id,
            telemetry: Vec::new(),
            telemetry_buffer: FragmentBuffer::new(),
            energy_norm: CounterNormalizer::new(),
            power_state: None,
            newest_promoted: None,
        };
        proof {
            assert(r@.records =~= fresh_device(r.id@).records);
            assert(r@ == fresh_device(r.id@));
        }
        r
    }

    /// The device's identifier.
    pub fn id(&self) -> (r: &str)
        ensures
            r@ == self@.id,
    {
        self.id.as_str()
    }

    /// Whether this device's identifier equals `s`.
    pub fn id_matches(&self, s: &str) -> (r: bool)
        ensures
            r == (self@.id == s@),
    {
        str_eq(self.id.as_str(), s)
    }

    pub fn record_count(&self) -> (r: usize)
        ensures
            r == self@.records.len(),
    {
        self.telemetry.len()
    }

    pub fn record_at(&self, i: usize) -> (r: StoredRecord)
        requires
            i < self@.records.len(),
        ensures
            r == self@.records[i as int],
    {
        self.telemetry[i]
    }

    /// Folds one sensor fragment into the device, exactly as `sns_step`
    /// describes; returns the promoted record if the fragment completed
    /// a pair.
    pub fn update_with_sns_telemetry(&mut self, sns: StatusSNS, arrival_ms: i64) -> (r: Option<
        ProcessedTelemetry,
    >)
        requires
            old(self).wf(),
            sns.wf(),
            0 <= arrival_ms,
        ensures
            final(self).wf(),
            (final(self)@, r) == sns_step(old(self)@, sns, arrival_ms as int),
    {
        let t = replace_hour(sns.time, arrival_ms);
        if let Some(p) = self.newest_promoted {
            if t <= p {
                return None;
            }
        }
        let norm = self.energy_norm.observe(sns.energy.energy_lifetime);
        let adjusted = StatusSNS {
            time: sns.time,
            energy: Energy { energy_lifetime: norm, ..sns.energy },
        };
        let ghost pre_insert = *self;
        self.telemetry_buffer.insert_sns(t, adjusted);
        let ghost post_insert = *self;
        match self.telemetry_buffer.take_pair(t) {
            Some((energy, sts)) => {
                proof {
                    assert(pre_insert@.buffer.insert(
                        t as int,
                        MaybeTelemetry { sns: Some(adjusted), sts: post_insert@.buffer[t as int].sts },
                    ).remove(t as int) =~= pre_insert@.buffer.remove(t as int));
                }
                let rec = ProcessedTelemetry::from((energy, sts));
                self.telemetry.push(StoredRecord { timestamp: t, telemetry: rec, status: None });
                self.newest_promoted = Some(t);
                proof {
                    assert((final(self)@, Some(rec)) == sns_step(
                        old(self)@,
                        sns,
                        arrival_ms as int,
                    ));
                }
                Some(rec)
            },
            None => {
                proof {
                    assert((final(self)@, Option::<ProcessedTelemetry>::None) == sns_step(
                        old(self)@,
                        sns,
                        arrival_ms as int,
                    ));
                }
                None
            },
        }
    }

    /// Folds one status fragment into the device, exactly as `sts_step`
    /// describes.
    pub fn update_with_sts_telemetry(&mut self, sts: StatusSTS, arrival_ms: i64) -> (r: Option<
        ProcessedTelemetry,
    >)
        requires
            old(self).wf(),
            sts.wf(),
            0 <= arrival_ms,
        ensures
            final(self).wf(),
            (final(self)@, r) == sts_step(old(self)@, sts, arrival_ms as int),
    {
        let t = replace_hour(sts.time, arrival_ms);
        if let Some(p) = self.newest_promoted {
            if t <= p {
                return None;
            }
        }
        self.power_state = Some(sts.power_state);
        let ghost pre_insert = *self;
        self.telemetry_buffer.insert_sts(t, sts);
        let ghost post_insert = *self;
        match self.telemetry_buffer.take_pair(t) {
            Some((energy, paired_sts)) => {
                proof {
                    assert(pre_insert@.buffer.insert(
                        t as int,
                        MaybeTelemetry { sns: post_insert@.buffer[t as int].sns, sts: post_insert@.buffer[t as int].sts },
                    ).remove(t as int) =~= pre_insert@.buffer.remove(t as int));
                }
                let rec = ProcessedTelemetry::from((energy, paired_sts));
                self.telemetry.push(StoredRecord { timestamp: t, telemetry: rec, status: None });
                self.newest_promoted = Some(t);
                proof {
                    assert((final(self)@, Some(rec)) == sts_step(
                        old(self)@,
                        sts,
                        arrival_ms as int,
                    ));
                }
                Some(rec)
            },
            None => {
                proof {
                    assert((final(self)@, Option::<ProcessedTelemetry>::None) == sts_step(
                        old(self)@,
                        sts,
                        arrival_ms as int,
                    ));
                }
                None
            },
        }
    }

    /// Evicts buffered partial entries whose reconciled timestamp is
    /// older than `now_ms - age_ms` and returns how many were removed;
    /// promoted records, the counter normalizer and the power state are
    /// untouched.
    pub fn clear_stale_buffered_telemetry(&mut self, age_ms: i64, now_ms: i64) -> (removed: usize)
        requires
            old(self).wf(),
            0 <= age_ms,
            0 <= now_ms,
        ensures
            final(self).wf(),
            final(self)@.records == old(self)@.records,
            final(self)@.id == old(self)@.id,
            final(self)@.norm_last == old(self)@.norm_last,
            final(self)@.norm_offset == old(self)@.norm_offset,
            final(self)@.power_state == old(self)@.power_state,
            final(self)@.newest_promoted == old(self)@.newest_promoted,
            forall|t: int|
                final(self)@.buffer.contains_key(t) <==> (old(self)@.buffer.contains_key(t) && t
                    >= now_ms - age_ms),
            forall|t: int|
                final(self)@.buffer.contains_key(t) ==> final(self)@.buffer[t] == #[trigger] old(self)@.buffer[t],
            old(self)@.buffer.dom().finite(),
            final(self)@.buffer.dom().finite(),
            removed == old(self)@.buffer.dom().len() - final(self)@.buffer.dom().len(),
    {
        proof {
            self.telemetry_buffer.lemma_dom_len();
        }
        let threshold: i64 = now_ms - age_ms;
        let removed = self.telemetry_buffer.sweep_older_than(threshold);
        proof {
            self.telemetry_buffer.lemma_dom_len();
        }
        removed
    }

    /// Hands every not-yet-submitted completed record to the writer as
    /// an encoded power reading, in record order. A closed writer takes
    /// nothing; an open one takes exactly as many unsent records as it
    /// has room for (its queue capacity minus what is already queued),
    /// each keeping the handle of its delivery status.
    pub fn generate_line_protocol(&mut self, writer: &mut BatchWriter)
        requires
            old(self).wf(),
            old(writer).wf(),
        ensures
            final(self).wf(),
            final(writer).wf(),
            final(writer).spec_options() == old(writer).spec_options(),
            final(writer).spec_closed() == old(writer).spec_closed(),
            final(writer).spec_flying() == old(writer).spec_flying(),
            final(writer).spec_pending() == old(writer).spec_pending(),
            final(writer).spec_in_flight() == old(writer).spec_in_flight(),
            final(self)@.id == old(self)@.id,
            final(self)@.buffer == old(self)@.buffer,
            final(self)@.norm_last == old(self)@.norm_last,
            final(self)@.norm_offset == old(self)@.norm_offset,
            final(self)@.power_state == old(self)@.power_state,
            final(self)@.newest_promoted == old(self)@.newest_promoted,
            final(self)@.records.len() == old(self)@.records.len(),
            old(writer).spec_closed() ==> *final(self) == *old(self) && *final(writer) == *old(writer),
            !old(writer).spec_closed() ==> ({
                let base = old(writer).spec_statuses().len() as int;
                let room = old(writer).spec_options().channel_len
                    - old(writer).spec_queue().len();
                let ext = submit_ext(old(self)@.id, old(self)@.records, base, room);
                &&& final(writer).spec_queue() == old(writer).spec_queue() + ext
                &&& final(writer).spec_statuses() == old(writer).spec_statuses() + Seq::new(
                    ext.len(),
                    |k: int| Status::Init,
                )
                &&& forall|i: int|
                    0 <= i < old(self)@.records.len() ==> #[trigger] final(self)@.records[i]
                        == expected_record(old(self)@.records, i, base, room)
            }),
    {
        if writer.is_closed() {
            return ;
        }
        let ghost orecs = old(self)@.records;
        let ghost base = old(writer).spec_statuses().len() as int;
        let ghost room = old(writer).spec_options().channel_len as int - old(writer).spec_queue().len() as int;
        let n = self.telemetry.len();
        let mut i: usize = 0;
        while i < n
            invariant
                i <= n,
                n == self.telemetry@.len(),
                self.wf(),
                writer.wf(),
                writer.spec_options() == old(writer).spec_options(),
                !writer.spec_closed(),
                writer.spec_closed() == old(writer).spec_closed(),
                writer.spec_flying() == old(writer).spec_flying(),
                writer.spec_pending() == old(writer).spec_pending(),
                writer.spec_in_flight() == old(writer).spec_in_flight(),
                self@.id == old(self)@.id,
                self@.buffer == old(self)@.buffer,
                self@.norm_last == old(self)@.norm_last,
                self@.norm_offset == old(self)@.norm_offset,
                self@.power_state == old(self)@.power_state,
                self@.newest_promoted == old(self)@.newest_promoted,
                self@.records.len() == orecs.len(),
                orecs == old(self)@.records,
                base == old(writer).spec_statuses().len() as int,
                room == old(writer).spec_options().channel_len - old(writer).spec_queue().len(),
                writer.spec_queue() == old(writer).spec_queue() + submit_ext(
                    old(self)@.id,
                    orecs.take(i as int),
                    base,
                    room,
                ),
                writer.spec_statuses() == old(writer).spec_statuses() + Seq::new(
                    submit_ext(old(self)@.id, orecs.take(i as int), base, room).len(),
                    |k: int| Status::Init,
                ),
                forall|j: int|
                    0 <= j < i ==> #[trigger] self@.records[j] == expected_record(
                        orecs,
                        j,
                        base,
                        room,
                    ),
                forall|j: int| i <= j < orecs.len() ==> #[trigger] self@.records[j] == orecs[j],
            decreases n - i,
        {
            let ghost id = old(self)@.id;
            let ghost ext_i = submit_ext(id, orecs.take(i as int), base, room);
            proof {
                lemma_submit_step(id, orecs, base, room, i as int);
                lemma_submit_ext_len(id, orecs.take(i as int), base, room);
                lemma_none_count_bounds(orecs.take(i as int));
            }
            if self.telemetry[i].status.is_none() {
                if !writer.is_full() {
                    let rec = self.telemetry[i];
                    let line = encode_power_line(
                        self.id.as_str(),
                        rec.telemetry.power,
                        rec.timestamp,
                    );
                    let ghost pre_writer = *writer;
                    match writer.submit(line) {
                        Ok(h) => {
                            self.telemetry[i] = StoredRecord {
                                timestamp: rec.timestamp,
                                telemetry: rec.telemetry,
                                status: Some(h),
                            };
                            proof {
                                assert(h as int == base + none_count(orecs.take(i as int)));
                                assert(writer.spec_queue() =~= old(writer).spec_queue()
                                    + submit_ext(id, orecs.take(i as int + 1), base, room));
                                assert(writer.spec_statuses() =~= old(writer).spec_statuses()
                                    + Seq::new(
                                    submit_ext(id, orecs.take(i as int + 1), base, room).len(),
                                    |k: int| Status::Init,
                                ));
                            }
                        },
                        Err(_) => {
                            proof {
                                assert(false);
                            }
                        },
                    }
                } else {
                    proof {
                        // Full queue: the room is used up, so this and
                        // every later unsent record is capped out.
                        assert(none_count(orecs.take(i as int)) >= room);
                        assert(orecs.take(i as int + 1) =~= orecs.take(i as int).push(
                            orecs[i as int],
                        ));
                    }
                }
            }
            i += 1;
            proof {
                if !(orecs[i - 1].status is None) || none_count(orecs.take(i - 1)) >= room {
                    assert(submit_ext(id, orecs.take(i as int), base, room) =~= ext_i);
                }
            }
        }
        proof {
            assert(orecs.take(n as int) =~= orecs);
        }
    }
}
/// A message whose topic cannot be mapped to any device: it is logged
/// and dropped by the caller, never fatal.
#[derive(Debug)]
pub struct UnroutableTopic;

/// Devices stand in strictly ascending identifier order; the order
/// makes maintenance iteration deterministic.
pub open spec fn devices_sorted(s: Seq<DeviceView>) -> bool {
    forall|i: int, j: int|
        0 <= i < j < s.len() ==> lex_lt((#[trigger] s[i]).id, (#[trigger] s[j]).id)
}

/// Unsent completed records across a registry.
pub open spec fn total_unsubmitted(s: Seq<DeviceView>) -> int
    decreases s.len(),
{
    if s.len() == 0 {
        0
    } else {
        total_unsubmitted(s.drop_last()) + none_count(s.last().records)
    }
}

/// The whole sequence after one record's status is resolved, phrased
/// over one submission round's base handle and room.
pub open spec fn records_submitted_from(
    pre: Seq<StoredRecord>,
    post: Seq<StoredRecord>,
    base: int,
    room: int,
) -> bool {
    &&& post.len() == pre.len()
    &&& forall|k: int| 0 <= k < pre.len() ==> #[trigger] post[k] == expected_record(pre, k, base, room)
}

pub proof fn lemma_none_count_prefix_le(s: Seq<StoredRecord>, k: int)
    requires
        0 <= k <= s.len(),
    ensures
        none_count(s.take(k)) <= none_count(s),
    decreases s.len() - k,
{
    if k == s.len() {
        assert(s.take(k) =~= s);
    } else {
        assert(s.take(k + 1).drop_last() =~= s.take(k));
        assert(s.take(k + 1).last() == s[k]);
        lemma_none_count_prefix_le(s, k + 1);
    }
}

proof fn lemma_total_step(s: Seq<DeviceView>, d: int)
    requires
        0 <= d < s.len(),
    ensures
        total_unsubmitted(s.take(d + 1)) == total_unsubmitted(s.take(d)) + none_count(
            s[d].records,
        ),
{
    assert(s.take(d + 1).drop_last() =~= s.take(d));
    assert(s.take(d + 1).last() == s[d]);
}

proof fn lemma_total_prefix_le(s: Seq<DeviceView>, k: int)
    requires
        0 <= k <= s.len(),
    ensures
        total_unsubmitted(s.take(k)) <= total_unsubmitted(s),
        0 <= total_unsubmitted(s.take(k)),
    decreases s.len() - k,
{
    assert(s.take(0) =~= Seq::<DeviceView>::empty());
    lemma_total_nonneg(s.take(k));
    if k == s.len() {
        assert(s.take(k) =~= s);
    } else {
        lemma_total_step(s, k);
        lemma_none_count_bounds(s[k].records);
        lemma_total_prefix_le(s, k + 1);
    }
}

proof fn lemma_total_nonneg(s: Seq<DeviceView>)
    ensures
        0 <= total_unsubmitted(s),
    decreases s.len(),
{
    if s.len() > 0 {
        lemma_total_nonneg(s.drop_last());
        lemma_none_count_bounds(s.last().records);
    }
}

/// The registry of known devices, together with the topic scheme that
/// routes messages to them. Devices are created lazily on the first
/// message whose topic names an unknown device, and are kept sorted by
/// identifier.
#[derive(Debug)]
pub struct TasmotaDeviceManager<Scheme> {
    devices: Vec<TasmotaDevice>,
    scheme: Scheme,
}

impl<Scheme> TasmotaDeviceManager<Scheme> {
    /// The ghost image of the registry: each device's state, in
    /// ascending identifier order.
    pub closed spec fn spec_devices(&self) -> Seq<DeviceView> {
        self.devices@.map_values(|d: TasmotaDevice| d@)
    }

    pub closed spec fn wf(&self) -> bool {
        &&& forall|i: int|
            0 <= i < self.devices@.len() ==> (#[trigger] self.devices@[i]).wf()
        &&& devices_sorted(self.spec_devices())
    }

    /// The representation invariant carries the ghost-level order.
    pub proof fn lemma_wf_sorted(&self)
        requires
            self.wf(),
        ensures
            devices_sorted(self.spec_devices()),
    {
    }

    pub fn new(scheme: Scheme) -> (r: TasmotaDeviceManager<Scheme>)
        ensures
            r.wf(),
            r.spec_devices() == Seq::<DeviceView>::empty(),
    {
        let r = TasmotaDeviceManager { devices: Vec::new(), scheme };
        proof {
            assert(r.spec_devices() =~= Seq::<DeviceView>::empty());
        }
        r
    }

    pub fn device_count(&self) -> (r: usize)
        ensures
            r == self.spec_devices().len(),
    {
        self.devices.len()
    }

    pub fn device_record_count(&self, i: usize) -> (r: usize)
        requires
            i < self.spec_devices().len(),
        ensures
            r == self.spec_devices()[i as int].records.len(),
    {
        self.devices[i].record_count()
    }

    pub fn device_record_at(&self, i: usize, j: usize) -> (r: StoredRecord)
        requires
            i < self.spec_devices().len(),
            j < self.spec_devices()[i as int].records.len(),
        ensures
            r == self.spec_devices()[i as int].records[j as int],
    {
        self.devices[i].record_at(j)
    }

    fn find_device(&self, id: &str) -> (r: Option<usize>)
        requires
            self.wf(),
        ensures
            match r {
                Option::Some(i) => i < self.spec_devices().len()
                    && self.spec_devices()[i as int].id == id@,
                Option::None => forall|j: int|
                    0 <= j < self.spec_devices().len() ==> (#[trigger] self.spec_devices()[j]).id
                        != id@,
            },
    {
        let n = self.devices.len();
        let mut i: usize = 0;
        while i < n
            invariant
                i <= n,
                n == self.devices@.len(),
                forall|j: int| 0 <= j < i ==> (#[trigger] self.devices@[j])@.id != id@,
            decreases n - i,
        {
            if self.devices[i].id_matches(id) {
                return Some(i);
            }
            i += 1;
        }
        None
    }

    /// The sorted position a fresh identifier belongs at.
    fn device_insertion_point(&self, id: &str) -> (p: usize)
        requires
            self.wf(),
            forall|j: int|
                0 <= j < self.spec_devices().len() ==> (#[trigger] self.spec_devices()[j]).id
                    != id@,
        ensures
            p <= self.spec_devices().len(),
            forall|j: int| 0 <= j < p ==> lex_lt((#[trigger] self.spec_devices()[j]).id, id@),
            forall|j: int|
                p <= j < self.spec_devices().len() ==> lex_lt(
                    id@,
                    (#[trigger] self.spec_devices()[j]).id,
                ),
    {
        let n = self.devices.len();
        let mut i: usize = 0;
        while i < n && str_lt(self.devices[i].id(), id)
            invariant
                i <= n,
                n == self.devices@.len(),
                self.wf(),
                forall|j: int| 0 <= j < i ==> lex_lt((#[trigger] self.spec_devices()[j]).id, id@),
            decreases n - i,
        {
            i += 1;
        }
        proof {
            assert forall|j: int|
                i <= j < self.spec_devices().len() implies lex_lt(
                id@,
                (#[trigger] self.spec_devices()[j]).id,
            ) by {
                lemma_lex_lt_connected(self.spec_devices()[i as int].id, id@);
                if j > i {
                    lemma_lex_lt_trans(
                        id@,
                        self.spec_devices()[i as int].id,
                        self.spec_devices()[j].id,
                    );
                }
            }
        }
        i
    }
}

impl<Scheme: TopicScheme> TasmotaDeviceManager<Scheme> {
    /// Routes one decoded fragment: identifies the device from the
    /// topic, creating it at its sorted position on first sight, then
    /// folds the fragment into that device exactly as `fragment_step`
    /// describes. A topic the scheme cannot map to a device is
    /// unroutable and changes nothing.
    pub fn handle_message(&mut self, topic: &str, fragment: TelemetryFragment, arrival_ms: i64)
        -> (r: Result<Option<ProcessedTelemetry>, UnroutableTopic>)
        requires
            old(self).wf(),
            fragment_wf(fragment),
            0 <= arrival_ms,
        ensures
            final(self).wf(),
            devices_sorted(final(self).spec_devices()),
            match r {
                Result::Err(e) => final(self).spec_devices() == old(self).spec_devices(),
                Result::Ok(out) => exists|i: int|
                    #![trigger final(self).spec_devices()[i]]
                    {
                        &&& 0 <= i < final(self).spec_devices().len()
                        &&& ({
                            let n_old = old(self).spec_devices().len() as int;
                            if final(self).spec_devices().len() == n_old {
                                let stepped = fragment_step(
                                    old(self).spec_devices()[i],
                                    fragment,
                                    arrival_ms as int,
                                );
                                &&& final(self).spec_devices() == old(self).spec_devices().update(i, stepped.0)
                                &&& out == stepped.1
                            } else {
                                let stepped = fragment_step(
                                    fresh_device(final(self).spec_devices()[i].id),
                                    fragment,
                                    arrival_ms as int,
                                );
                                &&& final(self).spec_devices() == old(self).spec_devices().insert(i, stepped.0)
                                &&& forall|j: int|
                                    0 <= j < i ==> lex_lt(
                                        (#[trigger] old(self).spec_devices()[j]).id,
                                        final(self).spec_devices()[i].id,
                                    )
                                &&& forall|j: int|
                                    i <= j < n_old ==> lex_lt(
                                        final(self).spec_devices()[i].id,
                                        (#[trigger] old(self).spec_devices()[j]).id,
                                    )
                                &&& out == stepped.1
                            }
                        })
                    },
            },
    {
        let id = match self.scheme.get_device_id(topic) {
            Some(id) => id,
            None => {
                return Err(UnroutableTopic);
            },
        };
        let idx = match self.find_device(id) {
            Some(i) => i,
            None => {
                let p = self.device_insertion_point(id);
                let fresh = TasmotaDevice::new(id.to_owned());
                self.devices.insert(p, fresh);
                proof {
                    old(self).devices@.map_values(|d: TasmotaDevice| d@);
                    assert(self.spec_devices() =~= old(self).spec_devices().insert(
                        p as int,
                        self.spec_devices()[p as int],
                    ));
                    old(self).spec_devices().insert_ensures(
                        p as int,
                        self.spec_devices()[p as int],
                    );
                }
                p
            },
        };
        let ghost pre = *self;
        let ghost grew = old(self).devices@.len() < pre.devices@.len();
        let ghost pv = idx as int;
        proof {
            if grew {
                assert(pre.spec_devices() =~= old(self).spec_devices().insert(
                    pv,
                    pre.spec_devices()[pv],
                ));
                old(self).spec_devices().insert_ensures(pv, pre.spec_devices()[pv]);
            }
        }
        let dev = &mut self.devices[idx];
        let out = match fragment {
            TelemetryFragment::Sensor(sns) => dev.update_with_sns_telemetry(sns, arrival_ms),
            TelemetryFragment::State(sts) => dev.update_with_sts_telemetry(sts, arrival_ms),
        };
        proof {
            let i = idx as int;
            assert(final(self).spec_devices() =~= pre.spec_devices().update(
                i,
                final(self).spec_devices()[i],
            ));
            lemma_step_preserves_id(pre.devices@[i]@, fragment, arrival_ms as int);
            assert(self.devices@[i]@.id == pre.devices@[i]@.id);
            if grew {
                old(self).spec_devices().insert_ensures(i, final(self).spec_devices()[i]);
                assert(final(self).spec_devices() =~= old(self).spec_devices().insert(
                    i,
                    final(self).spec_devices()[i],
                ));
            }
            assert forall|a: int, b: int|
                0 <= a < b < final(self).spec_devices().len() implies lex_lt(
                (#[trigger] final(self).spec_devices()[a]).id,
                (#[trigger] final(self).spec_devices()[b]).id,
            ) by {
                if a != i && b != i {
                    assert(self.devices@[a] == pre.devices@[a]);
                    assert(self.devices@[b] == pre.devices@[b]);
                } else {
                    let o = if a == i { b } else { a };
                    assert(self.devices@[o] == pre.devices@[o]);
                }
            };
        }
        Ok(out)
    }

    /// Hands every device's unsent completed records to the writer:
    /// each device is visited exactly once, in ascending identifier
    /// order, and its records are submitted as `generate_line_protocol`
    /// specifies. An open writer with room for everything pending takes
    /// every unsent record of every device.
    pub fn submit(&mut self, writer: &mut BatchWriter)
        requires
            old(self).wf(),
            old(writer).wf(),
        ensures
            final(self).wf(),
            devices_sorted(final(self).spec_devices()),
            final(writer).wf(),
            final(writer).spec_options() == old(writer).spec_options(),
            final(writer).spec_closed() == old(writer).spec_closed(),
            final(writer).spec_flying() == old(writer).spec_flying(),
            final(writer).spec_pending() == old(writer).spec_pending(),
            final(writer).spec_in_flight() == old(writer).spec_in_flight(),
            old(writer).spec_statuses().is_prefix_of(final(writer).spec_statuses()),
            old(writer).spec_queue().is_prefix_of(final(writer).spec_queue()),
            final(self).spec_devices().len() == old(self).spec_devices().len(),
            old(writer).spec_closed() ==> *final(self) == *old(self) && *final(writer) == *old(writer),
            forall|d: int|
                0 <= d < old(self).spec_devices().len() ==> ({
                    let pre = old(self).spec_devices()[d];
                    let post = #[trigger] final(self).spec_devices()[d];
                    &&& post.id == pre.id
                    &&& post.buffer == pre.buffer
                    &&& post.norm_last == pre.norm_last
                    &&& post.norm_offset == pre.norm_offset
                    &&& post.power_state == pre.power_state
                    &&& post.newest_promoted == pre.newest_promoted
                    &&& exists|b: int, rm: int|
                        #[trigger] records_submitted_from(pre.records, post.records, b, rm)
                }),
            (!old(writer).spec_closed() && old(writer).spec_queue().len() + total_unsubmitted(
                old(self).spec_devices(),
            ) <= old(writer).spec_options().channel_len) ==> forall|d: int, k: int|
                0 <= d < old(self).spec_devices().len() && 0 <= k < old(self).spec_devices()[d].records.len() ==> (#[trigger] final(self).spec_devices()[d].records[k]).status is Some,
    {
        if writer.is_closed() {
            proof {
                assert forall|d: int|
                    0 <= d < old(self).spec_devices().len() implies ({
                    let pre = (#[trigger] old(self).spec_devices()[d]).records;
                    exists|b: int, rm: int| #[trigger] records_submitted_from(pre, pre, b, rm)
                }) by {
                    let pre = old(self).spec_devices()[d].records;
                    assert(records_submitted_from(pre, pre, 0, 0)) by {
                        assert forall|k: int| 0 <= k < pre.len() implies #[trigger] pre[k]
                            == expected_record(pre, k, 0, 0) by {
                            lemma_none_count_bounds(pre.take(k));
                        }
                    }
                }
            }
            return ;
        }
        let ghost oviews = old(self).spec_devices();
        let ghost old_q = old(writer).spec_queue().len() as int;
        let ghost channel = old(writer).spec_options().channel_len as int;
        let ghost all_room = old_q + total_unsubmitted(oviews) <= channel;
        let n = self.devices.len();
        let mut i: usize = 0;
        proof {
            assert(oviews.take(0) =~= Seq::<DeviceView>::empty());
        }
        while i < n
            invariant
                i <= n,
                n == self.devices@.len(),
                n == oviews.len(),
                self.wf(),
                writer.wf(),
                !writer.spec_closed(),
                writer.spec_options() == old(writer).spec_options(),
                writer.spec_closed() == old(writer).spec_closed(),
                writer.spec_flying() == old(writer).spec_flying(),
                writer.spec_pending() == old(writer).spec_pending(),
                writer.spec_in_flight() == old(writer).spec_in_flight(),
                old(writer).spec_statuses().is_prefix_of(writer.spec_statuses()),
                old(writer).spec_queue().is_prefix_of(writer.spec_queue()),
                oviews == old(self).spec_devices(),
                old_q == old(writer).spec_queue().len() as int,
                channel == old(writer).spec_options().channel_len as int,
                all_room == (old_q + total_unsubmitted(oviews) <= channel),
                forall|d: int| i <= d < n ==> #[trigger] self.devices@[d] == old(self).devices@[d],
                forall|d: int|
                    0 <= d < i ==> ({
                        let pre = oviews[d];
                        let post = (#[trigger] self.devices@[d])@;
                        &&& post.id == pre.id
                        &&& post.buffer == pre.buffer
                        &&& post.norm_last == pre.norm_last
                        &&& post.norm_offset == pre.norm_offset
                        &&& post.power_state == pre.power_state
                        &&& post.newest_promoted == pre.newest_promoted
                        &&& exists|b: int, rm: int|
                            #[trigger] records_submitted_from(pre.records, post.records, b, rm)
                    }),
                all_room ==> writer.spec_queue().len() == old_q + total_unsubmitted(
                    oviews.take(i as int),
                ),
                all_room ==> forall|d: int, k: int|
                    0 <= d < i && 0 <= k < oviews[d].records.len() ==> (#[trigger] (
                    self.devices@[d])@.records[k]).status is Some,
            decreases n - i,
        {
            let ghost pre_writer = *writer;
            let ghost pre_self = *self;
            proof {
                lemma_total_step(oviews, i as int);
                lemma_total_prefix_le(oviews, i as int + 1);
                lemma_none_count_bounds(oviews[i as int].records);
            }
            let dev = &mut self.devices[i];
            dev.generate_line_protocol(writer);
            proof {
                let iv = i as int;
                assert forall|a: int, b2: int|
                    0 <= a < b2 < self.spec_devices().len() implies lex_lt(
                    (#[trigger] self.spec_devices()[a]).id,
                    (#[trigger] self.spec_devices()[b2]).id,
                ) by {
                    assert(lex_lt(
                        (pre_self.spec_devices()[a]).id,
                        (pre_self.spec_devices()[b2]).id,
                    ));
                    if a != iv && b2 != iv {
                        assert(self.devices@[a] == pre_self.devices@[a]);
                        assert(self.devices@[b2] == pre_self.devices@[b2]);
                    } else {
                        let o = if a == iv { b2 } else { a };
                        assert(self.devices@[o] == pre_self.devices@[o]);
                        assert(self.devices@[iv]@.id == pre_self.devices@[iv]@.id);
                    }
                };
                let b = pre_writer.spec_statuses().len() as int;
                let rm = channel - pre_writer.spec_queue().len() as int;
                let ext = submit_ext(oviews[iv].id, oviews[iv].records, b, rm);
                assert(records_submitted_from(
                    oviews[iv].records,
                    (self.devices@[iv])@.records,
                    b,
                    rm,
                ));
                lemma_submit_ext_len(oviews[iv].id, oviews[iv].records, b, rm);
                if all_room {
                    assert(none_count(oviews[iv].records) <= rm);
                    assert forall|k: int|
                        0 <= k < oviews[iv].records.len() && oviews[iv].records[k].status
                            is None implies none_count(oviews[iv].records.take(k)) < rm by {
                        assert(oviews[iv].records.take(k + 1).drop_last() =~= oviews[
                            iv].records.take(k));
                        assert(oviews[iv].records.take(k + 1).last() == oviews[iv].records[k]);
                        lemma_none_count_prefix_le(oviews[iv].records, k + 1);
                    }
                }
                assert(old(writer).spec_statuses() =~= writer.spec_statuses().take(
                    old(writer).spec_statuses().len() as int,
                ));
                assert(old(writer).spec_queue() =~= writer.spec_queue().take(
                    old(writer).spec_queue().len() as int,
                ));
            }
            i += 1;
        }
        proof {
            assert(oviews.take(n as int) =~= oviews);
            assert(final(self).spec_devices() =~= self.devices@.map_values(
                |d: TasmotaDevice| d@,
            ));
        }
    }
}

} // verus!
