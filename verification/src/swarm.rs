//! The smart-plug swarm: a registry of per-plug correlation state with
//! a topic index for O(1)-style dispatch after first sight.
//!
//! Each plug pairs its sensor and status fragments by the device's own
//! timestamp, normalizes the energy counter, and reconciles the
//! timestamp against arrival time when a pair is promoted. The swarm
//! owns a secondary index from topic string to plug name; registering a
//! plug (or re-registering it under the same name) first removes the
//! plug's previous topic entries, so the index never holds an entry
//! that resolves to a dropped plug.

use vstd::prelude::*;
use crate::buffer::{pair_complete, FragmentBuffer, MaybeTelemetry};
use crate::counter::{step_offset, CounterNormalizer};
use crate::encode::{encode_telemetry_line, telemetry_line};
use crate::telemetry::{Energy, StatusSNS, StatusSTS, Telemetry};
use crate::timestamp::{reconcile_timestamp, spec_reconcile};
use crate::topic::{TelemetryType, TopicGenerator};
use crate::writer::{BatchWriter, Status};

verus! {

/// The ghost image of one plug's correlation state.
pub struct PlugView {
    pub name: Seq<char>,
    pub lwt: Option<Seq<char>>,
    /// Partial fragments, keyed by the device's own timestamp.
    pub buffer: Map<int, MaybeTelemetry>,
    pub norm_last: Option<int>,
    pub norm_offset: int,
    /// When the collector first saw this plug (arrival clock, ms).
    pub first_observation: Option<i64>,
    /// The timestamp of the newest promoted pair.
    pub newest_promoted: Option<i64>,
}

/// A plug that was just registered: nothing seen yet.
pub open spec fn fresh_plug(name: Seq<char>) -> PlugView {
    PlugView {
        name,
        lwt: Option::None,
        buffer: Map::empty(),
        norm_last: Option::None,
        norm_offset: 0,
        first_observation: Option::None,
        newest_promoted: Option::None,
    }
}

pub open spec fn plug_stale(v: PlugView, t: int) -> bool {
    match v.newest_promoted {
        Option::Some(p) => t <= p,
        Option::None => false,
    }
}

/// The effect of one sensor fragment on a plug: dropped whole if its
/// timestamp is already superseded; otherwise the energy counter is
/// normalized and the fragment stored (replacing a duplicate of the
/// same kind at the same timestamp).
pub open spec fn plug_sns_step(v: PlugView, sns: StatusSNS, arrival_ms: int) -> PlugView {
    let t = sns.time as int;
    if plug_stale(v, t) {
        v
    } else {
        let new_offset = step_offset(v.norm_last, v.norm_offset, sns.energy.energy_lifetime as int);
        let adjusted = StatusSNS {
            energy: Energy {
                energy_lifetime: (sns.energy.energy_lifetime - new_offset) as i64,
                ..sns.energy
            },
            ..sns
        };
        let existing_sts = if v.buffer.contains_key(t) {
            v.buffer[t].sts
        } else {
            Option::None
        };
        PlugView {
            buffer: v.buffer.insert(
                t,
                MaybeTelemetry { sns: Option::Some(adjusted), sts: existing_sts },
            ),
            norm_last: Option::Some(sns.energy.energy_lifetime as int),
            norm_offset: new_offset,
            first_observation: if v.first_observation is Some {
                v.first_observation
            } else {
                Option::Some(arrival_ms as i64)
            },
            ..v
        }
    }
}

/// The effect of one status fragment on a plug.
pub open spec fn plug_sts_step(v: PlugView, sts: StatusSTS, arrival_ms: int) -> PlugView {
    let t = sts.time as int;
    if plug_stale(v, t) {
        v
    } else {
        let existing_sns = if v.buffer.contains_key(t) {
            v.buffer[t].sns
        } else {
            Option::None
        };
        PlugView {
            buffer: v.buffer.insert(
                t,
                MaybeTelemetry { sns: existing_sns, sts: Option::Some(sts) },
            ),
            first_observation: if v.first_observation is Some {
                v.first_observation
            } else {
                Option::Some(arrival_ms as i64)
            },
            ..v
        }
    }
}

/// Well-formedness of a plug's ghost state: the normalizer invariant
/// holds, every buffered fragment is in range, and a complete pair can
/// only sit above the newest promoted timestamp (so promotions strictly
/// increase).
pub open spec fn plug_view_wf(v: PlugView) -> bool {
    &&& match v.norm_last {
        Option::None => v.norm_offset == 0,
        Option::Some(l) => 0 <= v.norm_offset <= l,
    }
    &&& forall|k: int|
        #[trigger] v.buffer.contains_key(k) ==> {
            &&& (v.buffer[k].sns matches Option::Some(sns) ==> sns.wf() && sns.time == k)
            &&& (v.buffer[k].sts matches Option::Some(sts) ==> sts.wf() && sts.time == k)
            &&& (pair_complete(v.buffer[k]) ==> !plug_stale(v, k))
        }
}

/// The error carried when a telemetry kind cannot be served.
#[derive(Debug)]
pub struct TelemetryNotAvailable(pub TelemetryType);

/// One plug's correlation state.
#[derive(Debug)]
pub struct SmartPlug<G> {
    name: String,
    lwt: Option<String>,
    raw_telemetry: FragmentBuffer,
    energy_norm: CounterNormalizer,
    first_observation: Option<i64>,
    newest_promoted: Option<i64>,
    _scheme: core::marker::PhantomData<G>,
}

impl<G> View for SmartPlug<G> {
    type V = PlugView;

    closed spec fn view(&self) -> PlugView {
        PlugView {
            name: self.name@,
            lwt: match self.lwt {
                Option::Some(s) => Option::Some(s@),
                Option::None => Option::None,
            },
            buffer: self.raw_telemetry@,
            norm_last: self.energy_norm.spec_last_int(),
            norm_offset: self.energy_norm.offset as int,
            first_observation: self.first_observation,
            newest_promoted: self.newest_promoted,
        }
    }
}

impl<G> SmartPlug<G> {
    pub closed spec fn wf(&self) -> bool {
        &&& self.raw_telemetry.wf()
        &&& self.energy_norm.wf()
        &&& plug_view_wf(self@)
    }

    /// Creates a new smart plug with the given name.
    pub fn new(name: String) -> (r: SmartPlug<G>)
        ensures
            r.wf(),
            r@ == fresh_plug(name@),
    {
        let r = SmartPlug {
            name,
            lwt: None,
            raw_telemetry: FragmentBuffer::new(),
            energy_norm: CounterNormalizer::new(),
            first_observation: None,
            newest_promoted: None,
            _scheme: core::marker::PhantomData,
        };
        proof {
            assert(r@ == fresh_plug(r.name@));
        }
        r
    }

    /// Returns the name of the smart plug.
    pub fn name(&self) -> (r: &str)
        ensures
            r@ == self@.name,
    {
        self.name.as_str()
    }

    /// Returns the last will and testament of the smart plug, if any.
    pub fn lwt(&self) -> (r: Option<&str>)
        ensures
            match r {
                Option::Some(s) => self@.lwt == Option::Some(s@),
                Option::None => self@.lwt is None,
            },
    {
        match &self.lwt {
            Some(s) => Some(s.as_str()),
            None => None,
        }
    }

    /// Records the plug's last-will string, handing back the previous
    /// one.
    pub fn set_lwt(&mut self, lwt: String) -> (prev: Option<String>)
        requires
            old(self).wf(),
        ensures
            final(self).wf(),
            final(self)@ == (PlugView { lwt: Option::Some(lwt@), ..old(self)@ }),
            match prev {
                Option::Some(s) => old(self)@.lwt == Option::Some(s@),
                Option::None => old(self)@.lwt is None,
            },
    {
        let prev = self.lwt.take();
        self.lwt = Some(lwt);
        prev
    }

    /// Folds one sensor fragment into the plug, exactly as
    /// `plug_sns_step` describes.
    pub fn append_sensor_telemetry(&mut self, telemetry: StatusSNS, arrival_ms: i64)
        requires
            old(self).wf(),
            telemetry.wf(),
            0 <= arrival_ms,
        ensures
            final(self).wf(),
            final(self)@ == plug_sns_step(old(self)@, telemetry, arrival_ms as int),
    {
        let t = telemetry.time;
        if let Some(p) = self.newest_promoted {
            if t <= p {
                return ;
            }
        }
        let norm = self.energy_norm.observe(telemetry.energy.energy_lifetime);
        let adjusted = StatusSNS {
            time: telemetry.time,
            energy: Energy { energy_lifetime: norm, ..telemetry.energy },
        };
        if self.first_observation.is_none() {
            self.first_observation = Some(arrival_ms);
        }
        self.raw_telemetry.insert_sns(t, adjusted);
    }

    /// Folds one status fragment into the plug, exactly as
    /// `plug_sts_step` describes.
    pub fn append_state_telemetry(&mut self, telemetry: StatusSTS, arrival_ms: i64)
        requires
            old(self).wf(),
            telemetry.wf(),
            0 <= arrival_ms,
        ensures
            final(self).wf(),
            final(self)@ == plug_sts_step(old(self)@, telemetry, arrival_ms as int),
    {
        let t = telemetry.time;
        if let Some(p) = self.newest_promoted {
            if t <= p {
                return ;
            }
        }
        if self.first_observation.is_none() {
            self.first_observation = Some(arrival_ms);
        }
        self.raw_telemetry.insert_sts(t, telemetry);
    }

    /// Removes and returns the oldest complete sensor/status pair, with
    /// its timestamp; the promoted timestamp strictly increases.
    pub fn first_matched_telemetry(&mut self) -> (r: Option<(i64, StatusSNS, StatusSTS)>)
        requires
            old(self).wf(),
        ensures
            final(self).wf(),
            match r {
                Option::Some(p) => {
                    &&& old(self)@.buffer.contains_key(p.0 as int)
                    &&& old(self)@.buffer[p.0 as int].sns == Option::Some(p.1)
                    &&& old(self)@.buffer[p.0 as int].sts == Option::Some(p.2)
                    &&& p.1.wf()
                    &&& p.2.wf()
                    &&& forall|t: int|
                        old(self)@.buffer.contains_key(t) && t < p.0 ==> !pair_complete(
                            #[trigger] old(self)@.buffer[t],
                        )
                    &&& (old(self)@.newest_promoted matches Option::Some(q) ==> q < p.0)
                    &&& final(self)@ == (PlugView {
                        buffer: old(self)@.buffer.remove(p.0 as int),
                        newest_promoted: Option::Some(p.0),
                        ..old(self)@
                    })
                },
                Option::None => {
                    &&& *final(self) == *old(self)
                    &&& forall|t: int|
                        old(self)@.buffer.contains_key(t) ==> !pair_complete(
                            #[trigger] old(self)@.buffer[t],
                        )
                },
            },
    {
        match self.raw_telemetry.first_complete() {
            Some((ts, sns, sts)) => {
                self.newest_promoted = Some(ts);
                proof {
                    assert forall|k: int|
                        #[trigger] final(self)@.buffer.contains_key(k) implies {
                        &&& (final(self)@.buffer[k].sns matches Option::Some(s2) ==> s2.wf()
                            && s2.time == k)
                        &&& (final(self)@.buffer[k].sts matches Option::Some(s2) ==> s2.wf()
                            && s2.time == k)
                        &&& (pair_complete(final(self)@.buffer[k]) ==> !plug_stale(
                            final(self)@,
                            k,
                        ))
                    } by {
                        assert(old(self)@.buffer.contains_key(k));
                        if pair_complete(final(self)@.buffer[k]) {
                            assert(!(k < ts));
                        }
                    };
                }
                Some((ts, sns, sts))
            },
            None => None,
        }
    }

    /// Removes the oldest matched sensor and state telemetry.
    pub fn matched_telemetry(&mut self) -> (r: Option<(i64, StatusSNS, StatusSTS)>)
        requires
            old(self).wf(),
        ensures
            final(self).wf(),
            match r {
                Option::Some(p) => {
                    &&& old(self)@.buffer.contains_key(p.0 as int)
                    &&& old(self)@.buffer[p.0 as int].sns == Option::Some(p.1)
                    &&& old(self)@.buffer[p.0 as int].sts == Option::Some(p.2)
                    &&& p.1.wf()
                    &&& p.2.wf()
                    &&& forall|t: int|
                        old(self)@.buffer.contains_key(t) && t < p.0 ==> !pair_complete(
                            #[trigger] old(self)@.buffer[t],
                        )
                    &&& (old(self)@.newest_promoted matches Option::Some(q) ==> q < p.0)
                    &&& final(self)@ == (PlugView {
                        buffer: old(self)@.buffer.remove(p.0 as int),
                        newest_promoted: Option::Some(p.0),
                        ..old(self)@
                    })
                },
                Option::None => {
                    &&& *final(self) == *old(self)
                    &&& forall|t: int|
                        old(self)@.buffer.contains_key(t) ==> !pair_complete(
                            #[trigger] old(self)@.buffer[t],
                        )
                },
            },
    {
        self.first_matched_telemetry()
    }

    /// Builds the completed record for a matched pair: the energy is
    /// the (already normalized) lifetime counter, the timestamp is the
    /// device timestamp unless it drifts beyond tolerance from the
    /// pair's key, and the collector uptime is counted from the plug's
    /// first observation.
    pub fn generate_telemetry(
        &self,
        odt_ms: i64,
        sensor: StatusSNS,
        state: StatusSTS,
        now_ms: i64,
    ) -> (r: Result<Telemetry, TelemetryNotAvailable>)
        requires
            0 <= odt_ms,
            0 <= state.time,
            0 <= now_ms,
        ensures
            match r {
                Result::Ok(t) => {
                    &&& t.name@ == self@.name
                    &&& t.apparent_power == sensor.energy.apparent_power as i64
                    &&& t.current == sensor.energy.current as i64
                    &&& t.device_uptime == state.uptime_seconds
                    &&& t.energy == sensor.energy.energy_lifetime
                    &&& t.monitor_uptime == (match self@.first_observation {
                        Option::Some(f) => if 0 <= f <= now_ms {
                            ((now_ms - f) / 1000) as u64
                        } else {
                            0u64
                        },
                        Option::None => 0u64,
                    })
                    &&& t.power == sensor.energy.power as i64
                    &&& t.power_factor == sensor.energy.power_factor as i64
                    &&& t.reactive_power == sensor.energy.reactive_power as i64
                    &&& t.state == state.power_state
                    &&& t.voltage == sensor.energy.voltage as i64
                    &&& t.timestamp == spec_reconcile(state.time as int, odt_ms as int)
                },
                Result::Err(e) => false,
            },
    {
        let monitor_uptime: u64 = match self.first_observation {
            Some(f) => if 0 <= f && f <= now_ms {
                ((now_ms - f) / 1000) as u64
            } else {
                0
            },
            None => 0,
        };
        let (timestamp, _) = reconcile_timestamp(state.time, odt_ms);
        Ok(
            Telemetry {
                name: self.name.clone(),
                apparent_power: sensor.energy.apparent_power as i64,
                current: sensor.energy.current as i64,
                device_uptime: state.uptime_seconds,
                energy: sensor.energy.energy_lifetime,
                monitor_uptime,
                power: sensor.energy.power as i64,
                power_factor: sensor.energy.power_factor as i64,
                reactive_power: sensor.energy.reactive_power as i64,
                state: state.power_state,
                voltage: sensor.energy.voltage as i64,
                timestamp,
            },
        )
    }
}

impl<G: TopicGenerator> SmartPlug<G> {
    /// Generates the bus topic for the smart plug's sensor telemetry.
    pub fn sensor_telemetry_topic(&self) -> (r: String)
        ensures
            r@ == G::spec_sensor_topic(self@.name),
    {
        G::sensor_telemetry_topic(self.name.as_str())
    }

    /// Generates the bus topic for the smart plug's state telemetry.
    pub fn state_telemetry_topic(&self) -> (r: String)
        ensures
            r@ == G::spec_state_topic(self@.name),
    {
        G::state_telemetry_topic(self.name.as_str())
    }

    /// Generates the bus topic for the smart plug's last will and
    /// testament.
    pub fn lwt_topic(&self) -> (r: String)
        ensures
            r@ == G::spec_lwt_topic(self@.name),
    {
        G::lwt_topic(self.name.as_str())
    }
}


/// The ghost image of the swarm: the plugs in registration order and
/// the topic index entries in insertion order.
pub struct SwarmView {
    pub plugs: Seq<PlugView>,
    pub topics: Seq<(Seq<char>, Seq<char>)>,
}

pub open spec fn topics_has_key(s: Seq<(Seq<char>, Seq<char>)>, k: Seq<char>) -> bool {
    exists|i: int| 0 <= i < s.len() && (#[trigger] s[i]).0 == k
}

/// The value of the first entry with key `k`.
pub open spec fn topics_value(s: Seq<(Seq<char>, Seq<char>)>, k: Seq<char>) -> Seq<char>
    decreases s.len(),
{
    if s.len() == 0 {
        Seq::empty()
    } else if s[0].0 == k {
        s[0].1
    } else {
        topics_value(s.skip(1), k)
    }
}

/// `s` with the first entry keyed `k` removed.
pub open spec fn topics_remove(s: Seq<(Seq<char>, Seq<char>)>, k: Seq<char>) -> Seq<
    (Seq<char>, Seq<char>),
>
    decreases s.len(),
{
    if s.len() == 0 {
        s
    } else if s[0].0 == k {
        s.skip(1)
    } else {
        seq![s[0]] + topics_remove(s.skip(1), k)
    }
}

/// `s` with the first entry keyed `k` replaced by `(k, v)`, or `(k, v)`
/// appended if the key is absent.
pub open spec fn topics_upsert(s: Seq<(Seq<char>, Seq<char>)>, k: Seq<char>, v: Seq<char>) -> Seq<
    (Seq<char>, Seq<char>),
>
    decreases s.len(),
{
    if s.len() == 0 {
        seq![(k, v)]
    } else if s[0].0 == k {
        seq![(k, v)] + s.skip(1)
    } else {
        seq![s[0]] + topics_upsert(s.skip(1), k, v)
    }
}

pub open spec fn unique_topic_keys(s: Seq<(Seq<char>, Seq<char>)>) -> bool {
    forall|i: int, j: int| 0 <= i < j < s.len() ==> (#[trigger] s[i]).0 != (#[trigger] s[j]).0
}

pub open spec fn has_plug(ps: Seq<PlugView>, name: Seq<char>) -> bool {
    exists|i: int| 0 <= i < ps.len() && (#[trigger] ps[i]).name == name
}

pub open spec fn plug_index(ps: Seq<PlugView>, name: Seq<char>) -> int {
    choose|i: int| 0 <= i < ps.len() && (#[trigger] ps[i]).name == name
}

pub open spec fn unique_plug_names(ps: Seq<PlugView>) -> bool {
    forall|i: int, j: int| 0 <= i < j < ps.len() ==> (#[trigger] ps[i]).name != (
    #[trigger] ps[j]).name
}

/// Every index entry resolves to a registered plug: no orphans.
pub open spec fn topics_resolve(v: SwarmView) -> bool {
    forall|i: int| 0 <= i < v.topics.len() ==> has_plug(v.plugs, (#[trigger] v.topics[i]).1)
}

pub open spec fn swarm_view_wf(v: SwarmView) -> bool {
    &&& unique_topic_keys(v.topics)
    &&& unique_plug_names(v.plugs)
    &&& topics_resolve(v)
}

/// Registration of `name`: if a plug of that name exists, its three
/// topic entries are removed first; then the three canonical topics are
/// (re)inserted pointing at `name`, and the plug state is replaced by a
/// fresh one (or appended, on first registration).
pub open spec fn register_spec<G: TopicGenerator>(v: SwarmView, name: Seq<char>) -> SwarmView {
    let ks = G::spec_sensor_topic(name);
    let kst = G::spec_state_topic(name);
    let kl = G::spec_lwt_topic(name);
    let t1 = if has_plug(v.plugs, name) {
        topics_remove(topics_remove(topics_remove(v.topics, ks), kst), kl)
    } else {
        v.topics
    };
    let t2 = topics_upsert(topics_upsert(topics_upsert(t1, ks, name), kst, name), kl, name);
    let plugs2 = if has_plug(v.plugs, name) {
        v.plugs.update(plug_index(v.plugs, name), fresh_plug(name))
    } else {
        v.plugs.push(fresh_plug(name))
    };
    SwarmView { plugs: plugs2, topics: t2 }
}

/// Removing an absent key changes nothing.
proof fn lemma_remove_absent(s: Seq<(Seq<char>, Seq<char>)>, k: Seq<char>)
    requires
        !topics_has_key(s, k),
    ensures
        topics_remove(s, k) == s,
    decreases s.len(),
{
    if s.len() > 0 {
        assert(s[0].0 != k);
        assert(!topics_has_key(s.skip(1), k)) by {
            if topics_has_key(s.skip(1), k) {
                let w = choose|i: int| 0 <= i < s.skip(1).len() && (#[trigger] s.skip(1)[i]).0 == k;
                assert(s[w + 1].0 == k);
            }
        }
        lemma_remove_absent(s.skip(1), k);
        assert(topics_remove(s, k) =~= s);
    }
}

/// What removal does to key membership, and that it keeps keys unique
/// and drops only entries of the original sequence.
proof fn lemma_remove_facts(s: Seq<(Seq<char>, Seq<char>)>, k: Seq<char>)
    requires
        unique_topic_keys(s),
    ensures
        unique_topic_keys(topics_remove(s, k)),
        !topics_has_key(topics_remove(s, k), k),
        forall|k2: Seq<char>|
            #[trigger] topics_has_key(topics_remove(s, k), k2) ==> topics_has_key(s, k2),
        forall|i: int|
            0 <= i < topics_remove(s, k).len() ==> exists|j: int|
                0 <= j < s.len() && #[trigger] topics_remove(s, k)[i] == s[j],
    decreases s.len(),
{
    let r = topics_remove(s, k);
    if s.len() == 0 {
    } else if s[0].0 == k {
        assert(r == s.skip(1));
        assert forall|i: int| 0 <= i < r.len() implies exists|j: int|
            0 <= j < s.len() && #[trigger] r[i] == s[j] by {
            assert(r[i] == s[i + 1]);
        }
        assert(!topics_has_key(r, k)) by {
            if topics_has_key(r, k) {
                let w = choose|i: int| 0 <= i < r.len() && (#[trigger] r[i]).0 == k;
                assert(s[w + 1].0 == k);
                assert(s[0].0 == s[w + 1].0);
            }
        }
        assert forall|k2: Seq<char>| #[trigger] topics_has_key(r, k2) implies topics_has_key(
            s,
            k2,
        ) by {
            let w = choose|i: int| 0 <= i < r.len() && (#[trigger] r[i]).0 == k2;
            assert(s[w + 1].0 == k2);
        }
    } else {
        let tail = s.skip(1);
        assert(unique_topic_keys(tail)) by {
            assert forall|i: int, j: int|
                0 <= i < j < tail.len() implies (#[trigger] tail[i]).0 != (
            #[trigger] tail[j]).0 by {
                assert(tail[i] == s[i + 1]);
                assert(tail[j] == s[j + 1]);
            }
        }
        lemma_remove_facts(tail, k);
        let rt = topics_remove(tail, k);
        assert(r == seq![s[0]] + rt);
        assert forall|i: int| 0 <= i < r.len() implies exists|j: int|
            0 <= j < s.len() && #[trigger] r[i] == s[j] by {
            if i == 0 {
                assert(r[0] == s[0]);
            } else {
                assert(r[i] == rt[i - 1]);
                let j = choose|j: int| 0 <= j < tail.len() && rt[i - 1] == #[trigger] tail[j];
                assert(r[i] == s[j + 1]);
            }
        }
        assert forall|k2: Seq<char>| #[trigger] topics_has_key(r, k2) implies topics_has_key(
            s,
            k2,
        ) by {
            let w = choose|i: int| 0 <= i < r.len() && (#[trigger] r[i]).0 == k2;
            if w == 0 {
                assert(s[0].0 == k2);
            } else {
                assert(rt[w - 1].0 == k2);
                assert(topics_has_key(rt, k2));
                let j = choose|i: int| 0 <= i < tail.len() && (#[trigger] tail[i]).0 == k2;
                assert(s[j + 1].0 == k2);
            }
        }
        assert(!topics_has_key(r, k)) by {
            if topics_has_key(r, k) {
                assert(topics_has_key(s, k));
                let w = choose|i: int| 0 <= i < r.len() && (#[trigger] r[i]).0 == k;
                if w == 0 {
                } else {
                    assert(rt[w - 1].0 == k);
                    assert(topics_has_key(rt, k));
                }
            }
        }
        assert forall|i: int, j: int|
            0 <= i < j < r.len() implies (#[trigger] r[i]).0 != (#[trigger] r[j]).0 by {
            if i == 0 {
                assert(rt[j - 1].0 == r[j].0);
                assert(topics_has_key(rt, r[j].0));
                assert(topics_has_key(tail, r[j].0));
                let w = choose|x: int| 0 <= x < tail.len() && (#[trigger] tail[x]).0 == r[j].0;
                assert(s[w + 1].0 == r[j].0);
                assert(s[0].0 != s[w + 1].0);
            } else {
                assert(r[i] == rt[i - 1]);
                assert(r[j] == rt[j - 1]);
            }
        }
    }
}

/// Removing a key that only occurs past a prefix without it leaves the
/// prefix alone.
proof fn lemma_remove_append(
    s: Seq<(Seq<char>, Seq<char>)>,
    rest: Seq<(Seq<char>, Seq<char>)>,
    k: Seq<char>,
)
    requires
        !topics_has_key(s, k),
    ensures
        topics_remove(s + rest, k) == s + topics_remove(rest, k),
    decreases s.len(),
{
    if s.len() == 0 {
        assert(s + rest =~= rest);
        assert(s + topics_remove(rest, k) =~= topics_remove(rest, k));
    } else {
        assert((s + rest)[0] == s[0]);
        assert(s[0].0 != k);
        assert(!topics_has_key(s.skip(1), k)) by {
            if topics_has_key(s.skip(1), k) {
                let w = choose|i: int|
                    0 <= i < s.skip(1).len() && (#[trigger] s.skip(1)[i]).0 == k;
                assert(s[w + 1].0 == k);
            }
        }
        assert((s + rest).skip(1) =~= s.skip(1) + rest);
        lemma_remove_append(s.skip(1), rest, k);
        assert(topics_remove(s + rest, k) =~= s + topics_remove(rest, k));
    }
}

/// Upserting an absent key appends the entry.
proof fn lemma_upsert_absent(s: Seq<(Seq<char>, Seq<char>)>, k: Seq<char>, v: Seq<char>)
    requires
        !topics_has_key(s, k),
    ensures
        topics_upsert(s, k, v) == s.push((k, v)),
    decreases s.len(),
{
    if s.len() == 0 {
        assert(topics_upsert(s, k, v) =~= s.push((k, v)));
    } else {
        assert(s[0].0 != k);
        assert(!topics_has_key(s.skip(1), k)) by {
            if topics_has_key(s.skip(1), k) {
                let w = choose|i: int|
                    0 <= i < s.skip(1).len() && (#[trigger] s.skip(1)[i]).0 == k;
                assert(s[w + 1].0 == k);
            }
        }
        lemma_upsert_absent(s.skip(1), k, v);
        assert(topics_upsert(s, k, v) =~= s.push((k, v)));
    }
}

/// Key membership after a push.
proof fn lemma_has_key_push(s: Seq<(Seq<char>, Seq<char>)>, x: (Seq<char>, Seq<char>), k: Seq<char>)
    ensures
        topics_has_key(s.push(x), k) <==> (topics_has_key(s, k) || x.0 == k),
{
    if topics_has_key(s, k) {
        let w = choose|i: int| 0 <= i < s.len() && (#[trigger] s[i]).0 == k;
        assert(s.push(x)[w].0 == k);
    }
    if x.0 == k {
        assert(s.push(x)[s.len() as int].0 == k);
    }
    if topics_has_key(s.push(x), k) {
        let w = choose|i: int| 0 <= i < s.push(x).len() && (#[trigger] s.push(x)[i]).0 == k;
        if w < s.len() {
            assert(s[w].0 == k);
        }
    }
}

/// Re-registering a device under the same name is idempotent: the
/// second registration removes exactly the three entries the first one
/// appended, re-appends them, and replaces an already-fresh plug with a
/// fresh plug, so nothing changes and no orphaned index entry can
/// survive. (This needs the scheme's three topics for one name to be
/// pairwise distinct, and an unregistered name's topics to be absent
/// from the index; both hold for the fixed-format scheme.)
pub proof fn lemma_register_idempotent<G: TopicGenerator>(v: SwarmView, name: Seq<char>)
    requires
        swarm_view_wf(v),
        G::spec_sensor_topic(name) != G::spec_state_topic(name),
        G::spec_sensor_topic(name) != G::spec_lwt_topic(name),
        G::spec_state_topic(name) != G::spec_lwt_topic(name),
        !has_plug(v.plugs, name) ==> {
            &&& !topics_has_key(v.topics, G::spec_sensor_topic(name))
            &&& !topics_has_key(v.topics, G::spec_state_topic(name))
            &&& !topics_has_key(v.topics, G::spec_lwt_topic(name))
        },
    ensures
        register_spec::<G>(register_spec::<G>(v, name), name) == register_spec::<G>(v, name),
{
    let ks = G::spec_sensor_topic(name);
    let kst = G::spec_state_topic(name);
    let kl = G::spec_lwt_topic(name);
    let r1 = register_spec::<G>(v, name);

    // The base of the first registration's index: the three keys are
    // absent from it.
    let t1 = if has_plug(v.plugs, name) {
        topics_remove(topics_remove(topics_remove(v.topics, ks), kst), kl)
    } else {
        v.topics
    };
    if has_plug(v.plugs, name) {
        lemma_remove_facts(v.topics, ks);
        lemma_remove_facts(topics_remove(v.topics, ks), kst);
        lemma_remove_facts(topics_remove(topics_remove(v.topics, ks), kst), kl);
    }
    assert(!topics_has_key(t1, ks));
    assert(!topics_has_key(t1, kst));
    assert(!topics_has_key(t1, kl));

    // So the first registration appended the three entries in order.
    lemma_upsert_absent(t1, ks, name);
    lemma_has_key_push(t1, (ks, name), kst);
    lemma_upsert_absent(t1.push((ks, name)), kst, name);
    lemma_has_key_push(t1, (ks, name), kl);
    lemma_has_key_push(t1.push((ks, name)), (kst, name), kl);
    lemma_upsert_absent(t1.push((ks, name)).push((kst, name)), kl, name);
    let tail = seq![(ks, name), (kst, name), (kl, name)];
    assert(r1.topics =~= t1 + tail);

    // The plug of `name` exists in the first registration's result.
    let i1 = if has_plug(v.plugs, name) {
        plug_index(v.plugs, name)
    } else {
        v.plugs.len() as int
    };
    assert(r1.plugs[i1].name == name);
    assert(has_plug(r1.plugs, name));

    // The second registration strips exactly the appended entries.
    lemma_remove_append(t1, tail, ks);
    assert(topics_remove(tail, ks) =~= seq![(kst, name), (kl, name)]);
    let u1 = t1 + seq![(kst, name), (kl, name)];
    assert(topics_remove(r1.topics, ks) =~= u1);
    lemma_remove_append(t1, seq![(kst, name), (kl, name)], kst);
    assert(topics_remove(seq![(kst, name), (kl, name)], kst) =~= seq![(kl, name)]);
    let u2 = t1 + seq![(kl, name)];
    assert(topics_remove(u1, kst) =~= u2);
    lemma_remove_append(t1, seq![(kl, name)], kl);
    assert(topics_remove(seq![(kl, name)], kl) =~= Seq::<(Seq<char>, Seq<char>)>::empty());
    assert(topics_remove(u2, kl) =~= t1 + Seq::<(Seq<char>, Seq<char>)>::empty());
    assert(t1 + Seq::<(Seq<char>, Seq<char>)>::empty() =~= t1);

    // And re-appends them: the index is unchanged.
    let r2 = register_spec::<G>(r1, name);
    assert(r2.topics == r1.topics);

    // The plug of `name` is already fresh, and names stay unique, so
    // replacing it changes nothing.
    assert(unique_plug_names(r1.plugs)) by {
        assert forall|a: int, b: int|
            0 <= a < b < r1.plugs.len() implies (#[trigger] r1.plugs[a]).name != (
        #[trigger] r1.plugs[b]).name by {
            if has_plug(v.plugs, name) {
                if a != i1 && b != i1 {
                    assert(r1.plugs[a] == v.plugs[a]);
                    assert(r1.plugs[b] == v.plugs[b]);
                } else {
                    let o = if a == i1 { b } else { a };
                    assert(r1.plugs[o] == v.plugs[o]);
                    assert(v.plugs[i1].name == name);
                }
            } else {
                if b < v.plugs.len() {
                    assert(r1.plugs[a] == v.plugs[a]);
                    assert(r1.plugs[b] == v.plugs[b]);
                } else {
                    assert(r1.plugs[a] == v.plugs[a]);
                    assert(!(v.plugs[a].name == name));
                }
            }
        }
    }
    let i2 = plug_index(r1.plugs, name);
    assert(r1.plugs[i2].name == name);
    assert(i2 == i1) by {
        if i2 != i1 {
            if i2 < i1 {
                assert(r1.plugs[i2].name != r1.plugs[i1].name);
            } else {
                assert(r1.plugs[i1].name != r1.plugs[i2].name);
            }
        }
    }
    assert(r1.plugs[i1] == fresh_plug(name));
    assert(r2.plugs =~= r1.plugs);
    assert(r2 == r1);
}


/// First-match index facts for the executable scans.
proof fn lemma_remove_at_index(s: Seq<(Seq<char>, Seq<char>)>, i: int, k: Seq<char>)
    requires
        0 <= i < s.len(),
        s[i].0 == k,
        forall|j: int| 0 <= j < i ==> (#[trigger] s[j]).0 != k,
    ensures
        topics_remove(s, k) == s.remove(i),
    decreases i,
{
    if i == 0 {
        assert(topics_remove(s, k) =~= s.remove(0));
    } else {
        let tail = s.skip(1);
        assert(tail[i - 1].0 == k);
        assert forall|j: int| 0 <= j < i - 1 implies (#[trigger] tail[j]).0 != k by {
            assert(tail[j] == s[j + 1]);
        }
        lemma_remove_at_index(tail, i - 1, k);
        assert(topics_remove(s, k) =~= s.remove(i));
    }
}

proof fn lemma_upsert_at_index(s: Seq<(Seq<char>, Seq<char>)>, i: int, k: Seq<char>, v: Seq<char>)
    requires
        0 <= i < s.len(),
        s[i].0 == k,
        forall|j: int| 0 <= j < i ==> (#[trigger] s[j]).0 != k,
    ensures
        topics_upsert(s, k, v) == s.update(i, (k, v)),
    decreases i,
{
    if i == 0 {
        assert(topics_upsert(s, k, v) =~= s.update(0, (k, v)));
    } else {
        let tail = s.skip(1);
        assert(tail[i - 1].0 == k);
        assert forall|j: int| 0 <= j < i - 1 implies (#[trigger] tail[j]).0 != k by {
            assert(tail[j] == s[j + 1]);
        }
        lemma_upsert_at_index(tail, i - 1, k, v);
        assert(topics_upsert(s, k, v) =~= s.update(i, (k, v)));
    }
}

proof fn lemma_value_at_index(s: Seq<(Seq<char>, Seq<char>)>, i: int, k: Seq<char>)
    requires
        0 <= i < s.len(),
        s[i].0 == k,
        forall|j: int| 0 <= j < i ==> (#[trigger] s[j]).0 != k,
    ensures
        topics_has_key(s, k),
        topics_value(s, k) == s[i].1,
    decreases i,
{
    if i > 0 {
        let tail = s.skip(1);
        assert(tail[i - 1].0 == k);
        assert forall|j: int| 0 <= j < i - 1 implies (#[trigger] tail[j]).0 != k by {
            assert(tail[j] == s[j + 1]);
        }
        lemma_value_at_index(tail, i - 1, k);
    }
}

/// What an upsert does to keys, uniqueness and the entry set.
proof fn lemma_upsert_facts(s: Seq<(Seq<char>, Seq<char>)>, k: Seq<char>, v: Seq<char>)
    requires
        unique_topic_keys(s),
    ensures
        unique_topic_keys(topics_upsert(s, k, v)),
        forall|i: int|
            0 <= i < topics_upsert(s, k, v).len() ==> (#[trigger] topics_upsert(s, k, v)[i] == (
            k,
            v,
            ) || exists|j: int| 0 <= j < s.len() && topics_upsert(s, k, v)[i] == s[j]),
{
    if topics_has_key(s, k) {
        let i = choose|i: int| 0 <= i < s.len() && (#[trigger] s[i]).0 == k;
        assert forall|j: int| 0 <= j < i implies (#[trigger] s[j]).0 != k by {}
        lemma_upsert_at_index(s, i, k, v);
        let r = s.update(i, (k, v));
        assert forall|a: int| 0 <= a < r.len() implies (#[trigger] r[a] == (k, v) || exists|
            j: int,
        | 0 <= j < s.len() && r[a] == s[j]) by {
            if a != i {
                assert(r[a] == s[a]);
            }
        }
    } else {
        lemma_upsert_absent(s, k, v);
        let r = s.push((k, v));
        lemma_has_key_push(s, (k, v), k);
        assert forall|a: int, b: int|
            0 <= a < b < r.len() implies (#[trigger] r[a]).0 != (#[trigger] r[b]).0 by {
            if b == s.len() {
                assert(r[a] == s[a]);
                assert(!topics_has_key(s, k));
                if s[a].0 == k {
                    assert(topics_has_key(s, k));
                }
            } else {
                assert(r[a] == s[a]);
                assert(r[b] == s[b]);
            }
        }
        assert forall|a: int| 0 <= a < r.len() implies (#[trigger] r[a] == (k, v) || exists|
            j: int,
        | 0 <= j < s.len() && r[a] == s[j]) by {
            if a < s.len() {
                assert(r[a] == s[a]);
            }
        }
    }
}

/// A bus message routed to the swarm, already decoded by kind.
#[derive(Debug)]
pub enum PlugMessage {
    Sensor(StatusSNS),
    State(StatusSTS),
    Lwt(String),
}

pub open spec fn message_wf(m: PlugMessage) -> bool {
    match m {
        PlugMessage::Sensor(sns) => sns.wf(),
        PlugMessage::State(sts) => sts.wf(),
        PlugMessage::Lwt(_) => true,
    }
}

/// Routing failures the caller must handle.
#[derive(Debug)]
pub enum SwarmError {
    /// The topic maps to no device: log and drop, never fatal.
    UnknownTopic,
    /// The writer refused the record because it is shutting down.
    WriterClosed,
}

/// The registry of plugs with the topic index.
#[derive(Debug)]
pub struct SmartPlugSwarm<G> {
    smartplugs: Vec<SmartPlug<G>>,
    telemetry_map: Vec<(String, String)>,
}

impl<G> View for SmartPlugSwarm<G> {
    type V = SwarmView;

    closed spec fn view(&self) -> SwarmView {
        SwarmView {
            plugs: self.smartplugs@.map_values(|p: SmartPlug<G>| p@),
            topics: self.telemetry_map@.map_values(|e: (String, String)| (e.0@, e.1@)),
        }
    }
}

impl<G> SmartPlugSwarm<G> {
    pub closed spec fn wf(&self) -> bool {
        &&& forall|i: int|
            0 <= i < self.smartplugs@.len() ==> (#[trigger] self.smartplugs@[i]).wf()
        &&& swarm_view_wf(self@)
    }

    pub fn new() -> (r: SmartPlugSwarm<G>)
        ensures
            r.wf(),
            r@.plugs == Seq::<PlugView>::empty(),
            r@.topics == Seq::<(Seq<char>, Seq<char>)>::empty(),
    {
        let r = SmartPlugSwarm { smartplugs: Vec::new(), telemetry_map: Vec::new() };
        proof {
            assert(r@.plugs =~= Seq::<PlugView>::empty());
            assert(r@.topics =~= Seq::<(Seq<char>, Seq<char>)>::empty());
        }
        r
    }

    pub fn plug_count(&self) -> (r: usize)
        ensures
            r == self@.plugs.len(),
    {
        self.smartplugs.len()
    }

    pub fn topic_count(&self) -> (r: usize)
        ensures
            r == self@.topics.len(),
    {
        self.telemetry_map.len()
    }

    fn find_plug(&self, name: &str) -> (r: Option<usize>)
        ensures
            match r {
                Option::Some(i) => i < self@.plugs.len() && self@.plugs[i as int].name == name@,
                Option::None => !has_plug(self@.plugs, name@),
            },
    {
        let n = self.smartplugs.len();
        let mut i: usize = 0;
        while i < n
            invariant
                i <= n,
                n == self.smartplugs@.len(),
                forall|j: int| 0 <= j < i ==> (#[trigger] self.smartplugs@[j])@.name != name@,
            decreases n - i,
        {
            if crate::strutil::str_eq(self.smartplugs[i].name(), name) {
                return Some(i);
            }
            i += 1;
        }
        proof {
            assert forall|j: int|
                0 <= j < self@.plugs.len() implies (#[trigger] self@.plugs[j]).name != name@ by {}
        }
        None
    }

    /// Looks the topic up in the secondary index.
    fn topic_lookup(&self, key: &str) -> (r: Option<String>)
        ensures
            match r {
                Option::Some(v) => topics_has_key(self@.topics, key@) && v@ == topics_value(
                    self@.topics,
                    key@,
                ),
                Option::None => !topics_has_key(self@.topics, key@),
            },
    {
        let n = self.telemetry_map.len();
        let mut i: usize = 0;
        while i < n
            invariant
                i <= n,
                n == self.telemetry_map@.len(),
                forall|j: int| 0 <= j < i ==> (#[trigger] self@.topics[j]).0 != key@,
            decreases n - i,
        {
            if crate::strutil::str_eq(self.telemetry_map[i].0.as_str(), key) {
                proof {
                    lemma_value_at_index(self@.topics, i as int, key@);
                }
                return Some(self.telemetry_map[i].1.clone());
            }
            i += 1;
        }
        None
    }

    /// Removes the first index entry with the given topic, if any.
    fn topic_remove(&mut self, key: &str)
        ensures
            final(self)@.plugs == old(self)@.plugs,
            final(self)@.topics == topics_remove(old(self)@.topics, key@),
            final(self).smartplugs == old(self).smartplugs,
    {
        let n = self.telemetry_map.len();
        let mut i: usize = 0;
        while i < n
            invariant
                i <= n,
                n == self.telemetry_map@.len(),
                *self == *old(self),
                forall|j: int| 0 <= j < i ==> (#[trigger] self@.topics[j]).0 != key@,
            decreases n - i,
        {
            if crate::strutil::str_eq(self.telemetry_map[i].0.as_str(), key) {
                proof {
                    lemma_remove_at_index(self@.topics, i as int, key@);
                }
                self.telemetry_map.remove(i);
                proof {
                    assert(final(self)@.topics =~= old(self)@.topics.remove(i as int));
                    assert(final(self)@.plugs =~= old(self)@.plugs);
                }
                return ;
            }
            i += 1;
        }
        proof {
            assert(!topics_has_key(self@.topics, key@));
            lemma_remove_absent(self@.topics, key@);
        }
    }

    /// Inserts or replaces the index entry for the given topic.
    fn topic_insert(&mut self, key: String, value: String)
        ensures
            final(self)@.plugs == old(self)@.plugs,
            final(self)@.topics == topics_upsert(old(self)@.topics, key@, value@),
            final(self).smartplugs == old(self).smartplugs,
    {
        let n = self.telemetry_map.len();
        let mut i: usize = 0;
        while i < n
            invariant
                i <= n,
                n == self.telemetry_map@.len(),
                *self == *old(self),
                forall|j: int| 0 <= j < i ==> (#[trigger] self@.topics[j]).0 != key@,
            decreases n - i,
        {
            if crate::strutil::str_eq(self.telemetry_map[i].0.as_str(), key.as_str()) {
                proof {
                    lemma_upsert_at_index(self@.topics, i as int, key@, value@);
                }
                self.telemetry_map[i] = (key, value);
                proof {
                    assert(final(self)@.topics =~= old(self)@.topics.update(
                        i as int,
                        (final(self).telemetry_map@[i as int].0@, final(self).telemetry_map@[i as int].1@),
                    ));
                    assert(final(self)@.plugs =~= old(self)@.plugs);
                }
                return ;
            }
            i += 1;
        }
        proof {
            assert(!topics_has_key(self@.topics, key@));
            lemma_upsert_absent(self@.topics, key@, value@);
        }
        self.telemetry_map.push((key, value));
        proof {
            assert(final(self)@.topics =~= old(self)@.topics.push(
                (final(self).telemetry_map@.last().0@, final(self).telemetry_map@.last().1@),
            ));
            assert(final(self)@.plugs =~= old(self)@.plugs);
        }
    }
}

impl<G: TopicGenerator> SmartPlugSwarm<G> {
    /// Registers (or re-registers) a plug under `name`, exactly as
    /// `register_spec` describes; the replaced plug, if any, is handed
    /// back and its unflushed state is discarded with it.
    pub fn create_new_smartplug(&mut self, name: String) -> (r: Option<SmartPlug<G>>)
        requires
            old(self).wf(),
        ensures
            final(self).wf(),
            final(self)@ == register_spec::<G>(old(self)@, name@),
            match r {
                Option::Some(p) => has_plug(old(self)@.plugs, name@),
                Option::None => !has_plug(old(self)@.plugs, name@),
            },
    {
        let sensor_t = G::sensor_telemetry_topic(name.as_str());
        let state_t = G::state_telemetry_topic(name.as_str());
        let lwt_t = G::lwt_topic(name.as_str());
        let existing = self.find_plug(name.as_str());
        if existing.is_some() {
            self.topic_remove(sensor_t.as_str());
            self.topic_remove(state_t.as_str());
            self.topic_remove(lwt_t.as_str());
        }
        proof {
            lemma_remove_facts(old(self)@.topics, G::spec_sensor_topic(name@));
            lemma_remove_facts(
                topics_remove(old(self)@.topics, G::spec_sensor_topic(name@)),
                G::spec_state_topic(name@),
            );
            lemma_remove_facts(
                topics_remove(
                    topics_remove(old(self)@.topics, G::spec_sensor_topic(name@)),
                    G::spec_state_topic(name@),
                ),
                G::spec_lwt_topic(name@),
            );
        }
        let ghost t1_state = *self;
        self.topic_insert(sensor_t, name.clone());
        self.topic_insert(state_t, name.clone());
        self.topic_insert(lwt_t, name.clone());
        proof {
            lemma_upsert_facts(t1_state@.topics, G::spec_sensor_topic(name@), name@);
            lemma_upsert_facts(
                topics_upsert(t1_state@.topics, G::spec_sensor_topic(name@), name@),
                G::spec_state_topic(name@),
                name@,
            );
            lemma_upsert_facts(
                topics_upsert(
                    topics_upsert(t1_state@.topics, G::spec_sensor_topic(name@), name@),
                    G::spec_state_topic(name@),
                    name@,
                ),
                G::spec_lwt_topic(name@),
                name@,
            );
        }
        let ghost mid = *self;
        let result = match existing {
            Some(i) => {
                let mut plug = SmartPlug::new(name);
                core::mem::swap(&mut self.smartplugs[i], &mut plug);
                proof {
                    let iv = i as int;
                    assert(final(self)@.plugs =~= mid@.plugs.update(iv, fresh_plug(
                        final(self).smartplugs@[iv]@.name,
                    )));
                    let pi = plug_index(old(self)@.plugs, name@);
                    assert(old(self)@.plugs[pi].name == name@);
                    if pi != iv {
                        if pi < iv {
                            assert(old(self)@.plugs[pi].name != old(self)@.plugs[iv].name);
                        } else {
                            assert(old(self)@.plugs[iv].name != old(self)@.plugs[pi].name);
                        }
                    }
                }
                Some(plug)
            },
            None => {
                self.smartplugs.push(SmartPlug::new(name));
                proof {
                    assert(final(self)@.plugs =~= mid@.plugs.push(fresh_plug(
                        final(self).smartplugs@.last()@.name,
                    )));
                }
                None
            },
        };
        proof {
            let fin = final(self)@;
            let spec = register_spec::<G>(old(self)@, name@);
            assert(fin.topics == spec.topics);
            assert(fin.plugs =~= spec.plugs);
            assert forall|a: int, b: int|
                0 <= a < b < fin.plugs.len() implies (#[trigger] fin.plugs[a]).name != (
            #[trigger] fin.plugs[b]).name by {
                if has_plug(old(self)@.plugs, name@) {
                    let pi = plug_index(old(self)@.plugs, name@);
                    if a != pi && b != pi {
                        assert(fin.plugs[a] == old(self)@.plugs[a]);
                        assert(fin.plugs[b] == old(self)@.plugs[b]);
                    } else {
                        let o = if a == pi { b } else { a };
                        assert(fin.plugs[o] == old(self)@.plugs[o]);
                        assert(old(self)@.plugs[pi].name == name@);
                    }
                } else {
                    if b < old(self)@.plugs.len() {
                        assert(fin.plugs[a] == old(self)@.plugs[a]);
                        assert(fin.plugs[b] == old(self)@.plugs[b]);
                    } else {
                        assert(fin.plugs[a] == old(self)@.plugs[a]);
                        assert(!(old(self)@.plugs[a].name == name@));
                    }
                }
            }
            assert forall|i: int|
                0 <= i < fin.topics.len() implies has_plug(fin.plugs, (
            #[trigger] fin.topics[i]).1) by {
                let entry = fin.topics[i];
                if entry.1 == name@ {
                    let pi = if has_plug(old(self)@.plugs, name@) {
                        plug_index(old(self)@.plugs, name@)
                    } else {
                        old(self)@.plugs.len() as int
                    };
                    assert(fin.plugs[pi].name == name@);
                } else {
                    assert(exists|j: int|
                        0 <= j < old(self)@.topics.len() && entry == #[trigger] old(self)@.topics[j]) by {
                        lemma_entry_origin::<G>(old(self)@, t1_state@.topics, name@, entry);
                    }
                    let j = choose|j: int|
                        0 <= j < old(self)@.topics.len() && entry == #[trigger] old(self)@.topics[j];
                    assert(has_plug(old(self)@.plugs, entry.1));
                    let pj = choose|x: int|
                        0 <= x < old(self)@.plugs.len() && (#[trigger] old(self)@.plugs[x]).name
                            == entry.1;
                    assert(fin.plugs[pj].name == entry.1);
                }
            }
        }
        result
    }
}

/// Every entry of the re-built index either carries the registered
/// name or already stood in the old index.
proof fn lemma_entry_origin<G: TopicGenerator>(
    v: SwarmView,
    t1: Seq<(Seq<char>, Seq<char>)>,
    name: Seq<char>,
    entry: (Seq<char>, Seq<char>),
)
    requires
        swarm_view_wf(v),
        t1 == (if has_plug(v.plugs, name) {
            topics_remove(
                topics_remove(topics_remove(v.topics, G::spec_sensor_topic(name)), G::spec_state_topic(name)),
                G::spec_lwt_topic(name),
            )
        } else {
            v.topics
        }),
        entry.1 != name,
        exists|i: int|
            0 <= i < topics_upsert(
                topics_upsert(
                    topics_upsert(t1, G::spec_sensor_topic(name), name),
                    G::spec_state_topic(name),
                    name,
                ),
                G::spec_lwt_topic(name),
                name,
            ).len() && entry == #[trigger] topics_upsert(
                topics_upsert(
                    topics_upsert(t1, G::spec_sensor_topic(name), name),
                    G::spec_state_topic(name),
                    name,
                ),
                G::spec_lwt_topic(name),
                name,
            )[i],
    ensures
        exists|j: int| 0 <= j < v.topics.len() && entry == #[trigger] v.topics[j],
{
    let ks = G::spec_sensor_topic(name);
    let kst = G::spec_state_topic(name);
    let kl = G::spec_lwt_topic(name);
    let u1 = topics_upsert(t1, ks, name);
    let u2 = topics_upsert(u1, kst, name);
    let u3 = topics_upsert(u2, kl, name);
    if has_plug(v.plugs, name) {
        lemma_remove_facts(v.topics, ks);
        lemma_remove_facts(topics_remove(v.topics, ks), kst);
        lemma_remove_facts(topics_remove(topics_remove(v.topics, ks), kst), kl);
    }
    lemma_upsert_facts(t1, ks, name);
    lemma_upsert_facts(u1, kst, name);
    lemma_upsert_facts(u2, kl, name);
    let i = choose|i: int| 0 <= i < u3.len() && entry == #[trigger] u3[i];
    assert(entry == (kl, name) || exists|j: int| 0 <= j < u2.len() && entry == #[trigger] u2[j]);
    let i2 = choose|j: int| 0 <= j < u2.len() && entry == #[trigger] u2[j];
    assert(entry == (kst, name) || exists|j: int| 0 <= j < u1.len() && entry == #[trigger] u1[j]);
    let i1 = choose|j: int| 0 <= j < u1.len() && entry == #[trigger] u1[j];
    assert(entry == (ks, name) || exists|j: int| 0 <= j < t1.len() && entry == #[trigger] t1[j]);
    let i0 = choose|j: int| 0 <= j < t1.len() && entry == #[trigger] t1[j];
    if has_plug(v.plugs, name) {
        let d1 = topics_remove(v.topics, ks);
        let d2 = topics_remove(d1, kst);
        assert(exists|j: int| 0 <= j < d2.len() && entry == #[trigger] d2[j]);
        let a2 = choose|j: int| 0 <= j < d2.len() && entry == #[trigger] d2[j];
        assert(exists|j: int| 0 <= j < d1.len() && entry == #[trigger] d1[j]);
        let a1 = choose|j: int| 0 <= j < d1.len() && entry == #[trigger] d1[j];
        assert(exists|j: int| 0 <= j < v.topics.len() && entry == #[trigger] v.topics[j]);
    }
}


/// The swarm after resolving a topic: unchanged when the topic is
/// already indexed, extended by a registration when the scheme can
/// extract a device name from it, and untouched otherwise.
pub open spec fn spec_resolve<G: TopicGenerator>(v: SwarmView, topic: Seq<char>) -> SwarmView {
    if topics_has_key(v.topics, topic) {
        v
    } else {
        match G::spec_extract_device_name(topic) {
            Option::Some(n) => register_spec::<G>(v, n),
            Option::None => v,
        }
    }
}

/// The plug name a topic routes to: the indexed name, or on first
/// sight the name the scheme extracts. `None` is an unroutable topic.
pub open spec fn spec_plug_name<G: TopicGenerator>(v: SwarmView, topic: Seq<char>) -> Option<
    Seq<char>,
> {
    if topics_has_key(v.topics, topic) {
        Option::Some(topics_value(v.topics, topic))
    } else {
        G::spec_extract_device_name(topic)
    }
}

/// How one decoded message changes a plug: the fragment step of the
/// kind the topic announces; a last-will message only replaces the
/// stored will; a kind/payload mismatch or unknown kind changes
/// nothing.
pub open spec fn plug_apply<G: TopicGenerator>(
    v: PlugView,
    topic: Seq<char>,
    m: PlugMessage,
    arrival_ms: int,
) -> PlugView {
    match (G::spec_telemetry_type(topic), m) {
        (Option::Some(TelemetryType::Sensor), PlugMessage::Sensor(sns)) => plug_sns_step(
            v,
            sns,
            arrival_ms,
        ),
        (Option::Some(TelemetryType::State), PlugMessage::State(sts)) => plug_sts_step(
            v,
            sts,
            arrival_ms,
        ),
        (Option::Some(TelemetryType::Lwt), PlugMessage::Lwt(will)) => PlugView {
            lwt: Option::Some(will@),
            ..v
        },
        _ => v,
    }
}

/// The record a promoted pair produces: every field of the pair,
/// the collector uptime counted from the plug's first observation, and
/// the reconciled timestamp (device clock unless it drifts beyond
/// tolerance from arrival).
pub open spec fn telemetry_matches(
    t: Telemetry,
    name: Seq<char>,
    first_obs: Option<i64>,
    sns: StatusSNS,
    sts: StatusSTS,
    arrival_ms: int,
) -> bool {
    &&& t.name@ == name
    &&& t.apparent_power == sns.energy.apparent_power as i64
    &&& t.current == sns.energy.current as i64
    &&& t.device_uptime == sts.uptime_seconds
    &&& t.energy == sns.energy.energy_lifetime
    &&& t.monitor_uptime == (match first_obs {
        Option::Some(f) => if 0 <= f <= arrival_ms {
            ((arrival_ms - f) / 1000) as u64
        } else {
            0u64
        },
        Option::None => 0u64,
    })
    &&& t.power == sns.energy.power as i64
    &&& t.power_factor == sns.energy.power_factor as i64
    &&& t.reactive_power == sns.energy.reactive_power as i64
    &&& t.state == sts.power_state
    &&& t.voltage == sns.energy.voltage as i64
    &&& t.timestamp == spec_reconcile(sts.time as int, arrival_ms)
}

/// The promotion that one message causes, if any: the oldest complete
/// pair of the plug's buffer after the message was folded in.
pub open spec fn promoted_plug(applied: PlugView, t: int) -> PlugView {
    PlugView {
        buffer: applied.buffer.remove(t),
        newest_promoted: Option::Some(t as i64),
        ..applied
    }
}

/// A key whose pair is complete and oldest among the complete ones.
pub open spec fn oldest_complete_at(buffer: Map<int, MaybeTelemetry>, t: int) -> bool {
    &&& buffer.contains_key(t)
    &&& pair_complete(buffer[t])
    &&& forall|u: int|
        buffer.contains_key(u) && u < t ==> !pair_complete(#[trigger] buffer[u])
}

/// The first entry with a key is the one `topics_value` reads.
proof fn lemma_value_is_entry(s: Seq<(Seq<char>, Seq<char>)>, k: Seq<char>)
    requires
        topics_has_key(s, k),
    ensures
        exists|i: int|
            0 <= i < s.len() && (#[trigger] s[i]).0 == k && s[i].1 == topics_value(s, k),
    decreases s.len(),
{
    if s.len() > 0 {
        if s[0].0 == k {
            assert(s[0].0 == k && s[0].1 == topics_value(s, k));
        } else {
            let w = choose|i: int| 0 <= i < s.len() && (#[trigger] s[i]).0 == k;
            assert(s.skip(1)[w - 1].0 == k);
            lemma_value_is_entry(s.skip(1), k);
            let j = choose|i: int|
                0 <= i < s.skip(1).len() && (#[trigger] s.skip(1)[i]).0 == k && s.skip(1)[i].1
                    == topics_value(s.skip(1), k);
            assert(s[j + 1].0 == k && s[j + 1].1 == topics_value(s, k));
        }
    }
}

impl<G: TopicGenerator> SmartPlugSwarm<G> {
    /// Handles one bus message: resolves the plug from the topic index
    /// (registering a new plug on first sight of an extractable name),
    /// folds the decoded payload into the plug, and, if that completed
    /// a pair, submits the encoded record to the writer. Returns the
    /// produced record with its writer handle, if any.
    pub fn handle_telemetry(
        &mut self,
        topic: &str,
        message: PlugMessage,
        arrival_ms: i64,
        writer: &mut BatchWriter,
    ) -> (r: Result<Option<(usize, Telemetry)>, SwarmError>)
        requires
            old(self).wf(),
            message_wf(message),
            0 <= arrival_ms,
            old(writer).wf(),
            old(writer).spec_queue().len() < old(writer).spec_options().channel_len,
        ensures
            final(self).wf(),
            final(writer).wf(),
            final(writer).spec_options() == old(writer).spec_options(),
            final(writer).spec_closed() == old(writer).spec_closed(),
            final(writer).spec_flying() == old(writer).spec_flying(),
            final(writer).spec_pending() == old(writer).spec_pending(),
            final(writer).spec_in_flight() == old(writer).spec_in_flight(),
            r matches Result::Err(SwarmError::UnknownTopic) <==> spec_plug_name::<G>(
                old(self)@,
                topic@,
            ) is None,
            ({
                let resolved = spec_resolve::<G>(old(self)@, topic@);
                let pname = spec_plug_name::<G>(old(self)@, topic@);
                match r {
                    Result::Err(SwarmError::UnknownTopic) => *final(self) == *old(self) && *final(writer) == *old(writer),
                    Result::Err(SwarmError::WriterClosed) => {
                        // A pair was promoted but the closing writer
                        // refused the record; the plug keeps the
                        // promotion, nothing was queued.
                        &&& *final(writer) == *old(writer)
                        &&& old(writer).spec_closed()
                        &&& pname is Some
                        &&& final(self)@.topics == resolved.topics
                        &&& ({
                            let pi = plug_index(resolved.plugs, pname->Some_0);
                            let applied = plug_apply::<G>(
                                resolved.plugs[pi],
                                topic@,
                                message,
                                arrival_ms as int,
                            );
                            exists|t: int|
                                #[trigger] oldest_complete_at(applied.buffer, t) && final(self)@.plugs
                                    == resolved.plugs.update(pi, promoted_plug(applied, t))
                        })
                    },
                    Result::Ok(out) => {
                        &&& pname is Some
                        &&& final(self)@.topics == resolved.topics
                        &&& ({
                            let pi = plug_index(resolved.plugs, pname->Some_0);
                            let applied = plug_apply::<G>(
                                resolved.plugs[pi],
                                topic@,
                                message,
                                arrival_ms as int,
                            );
                            &&& 0 <= pi < resolved.plugs.len()
                            &&& match out {
                                Option::None => {
                                    // No pair completed: the plug holds
                                    // exactly the folded-in message and
                                    // nothing was queued.
                                    &&& final(self)@.plugs == resolved.plugs.update(pi, applied)
                                    &&& forall|t: int|
                                        applied.buffer.contains_key(t) ==> !pair_complete(
                                            #[trigger] applied.buffer[t],
                                        )
                                    &&& *final(writer) == *old(writer)
                                },
                                Option::Some(ht) => {
                                    &&& exists|t: int|
                                        {
                                            &&& #[trigger] oldest_complete_at(applied.buffer, t)
                                            &&& final(self)@.plugs == resolved.plugs.update(
                                                pi,
                                                promoted_plug(applied, t),
                                            )
                                            &&& telemetry_matches(
                                                ht.1,
                                                applied.name,
                                                applied.first_observation,
                                                applied.buffer[t].sns->Some_0,
                                                applied.buffer[t].sts->Some_0,
                                                arrival_ms as int,
                                            )
                                        }
                                    &&& !old(writer).spec_closed()
                                    &&& ht.0 == old(writer).spec_statuses().len()
                                    &&& final(writer).spec_statuses() == old(
                                        writer,
                                    ).spec_statuses().push(Status::Init)
                                    &&& final(writer).spec_queue() == old(
                                        writer,
                                    ).spec_queue().push(
                                        (
                                            ht.0 as int,
                                            telemetry_line(
                                                ht.1.name@,
                                                ht.1.apparent_power,
                                                ht.1.current,
                                                ht.1.device_uptime,
                                                ht.1.energy,
                                                ht.1.monitor_uptime,
                                                ht.1.power,
                                                ht.1.power_factor,
                                                ht.1.reactive_power,
                                                ht.1.state.spec_is_on(),
                                                ht.1.voltage,
                                                ht.1.timestamp,
                                            ),
                                        ),
                                    )
                                },
                            }
                        })
                    },
                }
            }),
    {
        let ghost msg = message;
        // Resolve the plug name, registering a new plug when the topic
        // is unknown but carries an extractable device name.
        let name: String = match self.topic_lookup(topic) {
            Some(n) => n,
            None => {
                match G::extract_device_name(topic) {
                    Some(n) => {
                        let owned = n.to_owned();
                        let _ = self.create_new_smartplug(owned.clone());
                        owned
                    },
                    None => {
                        return Err(SwarmError::UnknownTopic);
                    },
                }
            },
        };
        let ghost resolved = *self;
        proof {
            assert(resolved@ == spec_resolve::<G>(old(self)@, topic@));
            assert(spec_plug_name::<G>(old(self)@, topic@) == Option::Some(name@));
            if topics_has_key(old(self)@.topics, topic@) {
                lemma_value_is_entry(old(self)@.topics, topic@);
            } else {
                let pi0 = if has_plug(old(self)@.plugs, name@) {
                    plug_index(old(self)@.plugs, name@)
                } else {
                    old(self)@.plugs.len() as int
                };
                assert(resolved@.plugs[pi0].name == name@);
            }
            assert(has_plug(resolved@.plugs, name@));
        }
        let idx = match self.find_plug(name.as_str()) {
            Some(i) => i,
            None => {
                // Unreachable: the index never holds an orphan and a
                // fresh registration installs the plug it names.
                proof {
                    assert(false);
                }
                return Err(SwarmError::UnknownTopic);
            },
        };
        let kind = G::telemetry_type(topic);
        let ghost mid = *self;
        let ghost pname = name@;
        let plug = &mut self.smartplugs[idx];
        let ghost v0 = plug@;
        match (kind, message) {
            (Some(TelemetryType::Sensor), PlugMessage::Sensor(sns)) => {
                plug.append_sensor_telemetry(sns, arrival_ms);
            },
            (Some(TelemetryType::State), PlugMessage::State(sts)) => {
                plug.append_state_telemetry(sts, arrival_ms);
            },
            (Some(TelemetryType::Lwt), PlugMessage::Lwt(will)) => {
                let _ = plug.set_lwt(will);
            },
            _ => {},
        }
        proof {
            assert(plug@ == plug_apply::<G>(v0, topic@, msg, arrival_ms as int));
        }
        let ghost applied = plug@;
        let produced = match plug.matched_telemetry() {
            Some((ts, sns, sts)) => {
                match plug.generate_telemetry(arrival_ms, sns, sts, arrival_ms) {
                    Ok(t) => {
                        proof {
                            assert(oldest_complete_at(applied.buffer, ts as int));
                            assert(telemetry_matches(
                                t,
                                applied.name,
                                applied.first_observation,
                                sns,
                                sts,
                                arrival_ms as int,
                            ));
                        }
                        Some((Ghost(ts as int), t))
                    },
                    Err(_) => None,
                }
            },
            None => None,
        };
        proof {
            let iv = idx as int;
            assert(final(self)@.plugs =~= mid@.plugs.update(iv, final(self).smartplugs@[iv]@));
            assert(final(self)@.topics =~= mid@.topics);
            assert(final(self).smartplugs@[iv]@.name == mid@.plugs[iv].name);
            assert forall|a: int, b: int|
                0 <= a < b < final(self)@.plugs.len() implies (#[trigger] final(self)@.plugs[a]).name != (#[trigger] final(self)@.plugs[b]).name by {
                if a != iv && b != iv {
                    assert(final(self)@.plugs[a] == mid@.plugs[a]);
                    assert(final(self)@.plugs[b] == mid@.plugs[b]);
                } else {
                    let o = if a == iv { b } else { a };
                    assert(final(self)@.plugs[o] == mid@.plugs[o]);
                }
            }
            assert forall|i: int|
                0 <= i < final(self)@.topics.len() implies has_plug(final(self)@.plugs, (
            #[trigger] final(self)@.topics[i]).1) by {
                assert(has_plug(mid@.plugs, mid@.topics[i].1));
                let j = choose|x: int|
                    0 <= x < mid@.plugs.len() && (#[trigger] mid@.plugs[x]).name == mid@.topics[
                    i].1;
                assert(final(self)@.plugs[j].name == mid@.plugs[j].name);
            }
            // The ghost index the contract speaks through is the found one.
            let pi = plug_index(resolved@.plugs, pname);
            assert(resolved@.plugs[pi].name == pname);
            if pi != iv {
                if pi < iv {
                    assert(resolved@.plugs[pi].name != resolved@.plugs[iv].name);
                } else {
                    assert(resolved@.plugs[iv].name != resolved@.plugs[pi].name);
                }
            }
            assert(pi == iv);
        }
        match produced {
            Some((_promoted_at, telemetry)) => {
                let line = encode_telemetry_line(&telemetry);
                match writer.submit(line) {
                    Ok(h) => Ok(Some((h, telemetry))),
                    Err(_) => Err(SwarmError::WriterClosed),
                }
            },
            None => Ok(None),
        }
    }

    /// The representation invariant carries the ghost-level one: names
    /// and topic keys are unique and no index entry is orphaned.
    pub proof fn lemma_wf_view(&self)
        requires
            self.wf(),
        ensures
            swarm_view_wf(self@),
    {
    }
}

} // verus!



