//! Per-device correlation buffer.
//!
//! Sensor and status fragments for one device arrive independently,
//! each stamped with the device's own timestamp. The buffer holds, per
//! timestamp, the fragments seen so far; once both kinds are present
//! at a timestamp the pair is taken out and promoted to a completed
//! record. Entries are kept sorted by timestamp, and a periodic sweep
//! evicts incomplete entries that have grown too old.

use vstd::prelude::*;
use crate::telemetry::{Energy, StatusSNS, StatusSTS};

verus! {

/// The fragments seen so far for one timestamp: at most one of each
/// kind, with a later fragment of the same kind replacing the earlier
/// one (last value wins within a timestamp).
#[derive(Clone, Debug)]
pub struct MaybeTelemetry {
    pub sns: Option<StatusSNS>,
    pub sts: Option<StatusSTS>,
}

/// Both fragment kinds are present.
pub open spec fn pair_complete(m: MaybeTelemetry) -> bool {
    m.sns is Some && m.sts is Some
}

impl Default for MaybeTelemetry {
    fn default() -> (r: MaybeTelemetry)
        ensures
            r.sns is None,
            r.sts is None,
    {
        MaybeTelemetry { sns: None, sts: None }
    }
}

impl MaybeTelemetry {
    /// Stores a sensor fragment, handing back the one it replaces.
    pub fn replace_sns(&mut self, sns: StatusSNS) -> (prev: Option<StatusSNS>)
        ensures
            final(self).sns == Some(sns),
            final(self).sts == old(self).sts,
            prev == old(self).sns,
    {
        let prev = self.sns.take();
        self.sns = Some(sns);
        prev
    }

    /// Stores a status fragment, handing back the one it replaces.
    pub fn replace_sts(&mut self, sts: StatusSTS) -> (prev: Option<StatusSTS>)
        ensures
            final(self).sts == Some(sts),
            final(self).sns == old(self).sns,
            prev == old(self).sts,
    {
        let prev = self.sts.take();
        self.sts = Some(sts);
        prev
    }

    /// If both fragments are present, takes them out and returns the
    /// energy block paired with the status report; otherwise leaves the
    /// entry untouched.
    pub fn pair(&mut self) -> (r: Option<(Energy, StatusSTS)>)
        ensures
            match r {
                Option::Some(p) => {
                    &&& pair_complete(*old(self))
                    &&& p.0 == old(self).sns->Some_0.energy
                    &&& p.1 == old(self).sts->Some_0
                    &&& final(self).sns is None
                    &&& final(self).sts is None
                },
                Option::None => !pair_complete(*old(self)) && *final(self) == *old(self),
            },
    {
        if self.sns.is_some() && self.sts.is_some() {
            let sns = self.sns.take().unwrap();
            let sts = self.sts.take().unwrap();
            Some((sns.energy, sts))
        } else {
            None
        }
    }
}

/// Timestamp-keyed fragment entries, sorted by timestamp, at most one
/// entry per timestamp.
#[derive(Debug)]
pub struct FragmentBuffer {
    entries: Vec<(i64, MaybeTelemetry)>,
}

pub open spec fn sorted_entries(s: Seq<(i64, MaybeTelemetry)>) -> bool {
    forall|i: int, j: int| 0 <= i < j < s.len() ==> (#[trigger] s[i]).0 < (#[trigger] s[j]).0
}

pub open spec fn has_key(s: Seq<(i64, MaybeTelemetry)>, t: int) -> bool {
    exists|i: int| 0 <= i < s.len() && (#[trigger] s[i]).0 == t
}

pub open spec fn value_of(s: Seq<(i64, MaybeTelemetry)>, t: int) -> MaybeTelemetry {
    s[choose|i: int| 0 <= i < s.len() && (#[trigger] s[i]).0 == t].1
}

pub open spec fn as_map(s: Seq<(i64, MaybeTelemetry)>) -> Map<int, MaybeTelemetry> {
    Map::new(|t: int| has_key(s, t), |t: int| value_of(s, t))
}

proof fn lemma_unique_key_index(s: Seq<(i64, MaybeTelemetry)>, i: int, j: int)
    requires
        sorted_entries(s),
        0 <= i < s.len(),
        0 <= j < s.len(),
        s[i].0 == s[j].0,
    ensures
        i == j,
{
}

/// With sorted (hence unique) keys, the value at an occupied index is
/// the map value for that key.
proof fn lemma_value_at_index(s: Seq<(i64, MaybeTelemetry)>, i: int)
    requires
        sorted_entries(s),
        0 <= i < s.len(),
    ensures
        has_key(s, s[i].0 as int),
        value_of(s, s[i].0 as int) == s[i].1,
{
    let t = s[i].0 as int;
    assert(has_key(s, t));
    let w = choose|k: int| 0 <= k < s.len() && (#[trigger] s[k]).0 == t;
    lemma_unique_key_index(s, w, i);
}

impl View for FragmentBuffer {
    type V = Map<int, MaybeTelemetry>;

    closed spec fn view(&self) -> Map<int, MaybeTelemetry> {
        as_map(self.entries@)
    }
}

impl FragmentBuffer {
    pub closed spec fn wf(&self) -> bool {
        sorted_entries(self.entries@)
    }

    pub closed spec fn spec_len(&self) -> nat {
        self.entries@.len()
    }

    pub fn new() -> (r: FragmentBuffer)
        ensures
            r.wf(),
            r@ == Map::<int, MaybeTelemetry>::empty(),
            r.spec_len() == 0,
    {
        let r = FragmentBuffer { entries: Vec::new() };
        proof {
            assert(r@ =~= Map::<int, MaybeTelemetry>::empty());
        }
        r
    }

    pub fn len(&self) -> (r: usize)
        ensures
            r == self.spec_len(),
    {
        self.entries.len()
    }

    /// The index holding timestamp `ts`, if any.
    fn find(&self, ts: i64) -> (r: Option<usize>)
        requires
            self.wf(),
        ensures
            match r {
                Option::Some(i) => i < self.entries@.len() && self.entries@[i as int].0 == ts,
                Option::None => !self@.contains_key(ts as int),
            },
    {
        let n = self.entries.len();
        let mut i: usize = 0;
        while i < n
            invariant
                i <= n,
                n == self.entries@.len(),
                forall|j: int| 0 <= j < i ==> (#[trigger] self.entries@[j]).0 != ts,
            decreases n - i,
        {
            if self.entries[i].0 == ts {
                return Some(i);
            }
            i += 1;
        }
        proof {
            assert(!has_key(self.entries@, ts as int));
        }
        None
    }

    /// The index at which `ts` belongs, i.e. the number of entries with
    /// a smaller timestamp. Only called when `ts` is absent.
    fn insertion_point(&self, ts: i64) -> (r: usize)
        requires
            self.wf(),
            !self@.contains_key(ts as int),
        ensures
            r <= self.entries@.len(),
            forall|j: int| 0 <= j < r ==> (#[trigger] self.entries@[j]).0 < ts,
            forall|j: int| r <= j < self.entries@.len() ==> (#[trigger] self.entries@[j]).0 > ts,
    {
        let n = self.entries.len();
        let mut i: usize = 0;
        while i < n
            invariant
                i <= n,
                n == self.entries@.len(),
                self.wf(),
                !self@.contains_key(ts as int),
                forall|j: int| 0 <= j < i ==> (#[trigger] self.entries@[j]).0 < ts,
            decreases n - i,
        {
            if self.entries[i].0 > ts {
                return i;
            }
            proof {
                if self.entries@[i as int].0 == ts {
                    lemma_value_at_index(self.entries@, i as int);
                }
            }
            i += 1;
        }
        i
    }

    /// Stores a sensor fragment at `ts`, creating the entry if it is
    /// new. Returns whether a sensor fragment at `ts` was replaced.
    pub fn insert_sns(&mut self, ts: i64, sns: StatusSNS) -> (dup: bool)
        requires
            old(self).wf(),
        ensures
            final(self).wf(),
            final(self)@ == old(self)@.insert(
                ts as int,
                MaybeTelemetry {
                    sns: Some(sns),
                    sts: if old(self)@.contains_key(ts as int) {
                        old(self)@[ts as int].sts
                    } else {
                        Option::None
                    },
                },
            ),
            dup == (old(self)@.contains_key(ts as int) && old(self)@[ts as int].sns is Some),
            final(self).spec_len() == if old(self)@.contains_key(ts as int) {
                old(self).spec_len()
            } else {
                old(self).spec_len() + 1
            },
    {
        match self.find(ts) {
            Some(i) => {
                proof {
                    lemma_value_at_index(self.entries@, i as int);
                }
                let ghost old_entries = self.entries@;
                let slot = &mut self.entries[i].1;
                let prev = slot.replace_sns(sns);
                proof {
                    lemma_insert_update(old_entries, self.entries@, i as int);
                }
                prev.is_some()
            },
            None => {
                let p = self.insertion_point(ts);
                let ghost old_entries = self.entries@;
                self.entries.insert(p, (ts, MaybeTelemetry { sns: Some(sns), sts: None }));
                proof {
                    lemma_insert_new(
                        old_entries,
                        self.entries@,
                        p as int,
                        (ts, MaybeTelemetry { sns: Some(sns), sts: None }),
                    );
                }
                false
            },
        }
    }

    /// Stores a status fragment at `ts`, creating the entry if it is
    /// new. Returns whether a status fragment at `ts` was replaced.
    pub fn insert_sts(&mut self, ts: i64, sts: StatusSTS) -> (dup: bool)
        requires
            old(self).wf(),
        ensures
            final(self).wf(),
            final(self)@ == old(self)@.insert(
                ts as int,
                MaybeTelemetry {
                    sns: if old(self)@.contains_key(ts as int) {
                        old(self)@[ts as int].sns
                    } else {
                        Option::None
                    },
                    sts: Some(sts),
                },
            ),
            dup == (old(self)@.contains_key(ts as int) && old(self)@[ts as int].sts is Some),
            final(self).spec_len() == if old(self)@.contains_key(ts as int) {
                old(self).spec_len()
            } else {
                old(self).spec_len() + 1
            },
    {
        match self.find(ts) {
            Some(i) => {
                proof {
                    lemma_value_at_index(self.entries@, i as int);
                }
                let ghost old_entries = self.entries@;
                let slot = &mut self.entries[i].1;
                let prev = slot.replace_sts(sts);
                proof {
                    lemma_insert_update(old_entries, self.entries@, i as int);
                }
                prev.is_some()
            },
            None => {
                let p = self.insertion_point(ts);
                let ghost old_entries = self.entries@;
                self.entries.insert(p, (ts, MaybeTelemetry { sns: None, sts: Some(sts) }));
                proof {
                    lemma_insert_new(
                        old_entries,
                        self.entries@,
                        p as int,
                        (ts, MaybeTelemetry { sns: None, sts: Some(sts) }),
                    );
                }
                false
            },
        }
    }

    /// If the entry at `ts` holds both fragments, removes it and
    /// returns the pair; otherwise changes nothing.
    pub fn take_pair(&mut self, ts: i64) -> (r: Option<(Energy, StatusSTS)>)
        requires
            old(self).wf(),
        ensures
            final(self).wf(),
            match r {
                Option::Some(p) => {
                    &&& old(self)@.contains_key(ts as int)
                    &&& pair_complete(old(self)@[ts as int])
                    &&& p.0 == old(self)@[ts as int].sns->Some_0.energy
                    &&& p.1 == old(self)@[ts as int].sts->Some_0
                    &&& final(self)@ == old(self)@.remove(ts as int)
                    &&& final(self).spec_len() == old(self).spec_len() - 1
                },
                Option::None => {
                    &&& *final(self) == *old(self)
                    &&& !(old(self)@.contains_key(ts as int) && pair_complete(
                        old(self)@[ts as int],
                    ))
                },
            },
    {
        match self.find(ts) {
            Some(i) => {
                proof {
                    lemma_value_at_index(self.entries@, i as int);
                }
                let complete = self.entries[i].1.sns.is_some() && self.entries[i].1.sts.is_some();
                if complete {
                    let ghost old_entries = self.entries@;
                    let (_, mut entry) = self.entries.remove(i);
                    proof {
                        lemma_remove_entry(old_entries, self.entries@, i as int);
                    }
                    let pair = entry.pair();
                    Some(pair.unwrap())
                } else {
                    None
                }
            },
            None => None,
        }
    }

    /// Removes and returns the oldest complete pair, with its
    /// timestamp; `None` when no entry is complete.
    pub fn first_complete(&mut self) -> (r: Option<(i64, StatusSNS, StatusSTS)>)
        requires
            old(self).wf(),
        ensures
            final(self).wf(),
            match r {
                Option::Some(p) => {
                    &&& old(self)@.contains_key(p.0 as int)
                    &&& pair_complete(old(self)@[p.0 as int])
                    &&& old(self)@[p.0 as int].sns == Some(p.1)
                    &&& old(self)@[p.0 as int].sts == Some(p.2)
                    &&& forall|t: int|
                        old(self)@.contains_key(t) && t < p.0 ==> !pair_complete(
                            #[trigger] old(self)@[t],
                        )
                    &&& final(self)@ == old(self)@.remove(p.0 as int)
                },
                Option::None => {
                    &&& *final(self) == *old(self)
                    &&& forall|t: int|
                        old(self)@.contains_key(t) ==> !pair_complete(#[trigger] old(self)@[t])
                },
            },
    {
        let n = self.entries.len();
        let mut i: usize = 0;
        while i < n
            invariant
                i <= n,
                n == self.entries@.len(),
                self.wf(),
                *self == *old(self),
                forall|j: int|
                    0 <= j < i ==> !pair_complete((#[trigger] self.entries@[j]).1),
            decreases n - i,
        {
            if self.entries[i].1.sns.is_some() && self.entries[i].1.sts.is_some() {
                proof {
                    lemma_value_at_index(self.entries@, i as int);
                }
                let ghost old_entries = self.entries@;
                let (ts, entry) = self.entries.remove(i);
                proof {
                    lemma_remove_entry(old_entries, self.entries@, i as int);
                    assert forall|t: int|
                        as_map(old_entries).contains_key(t) && t < ts implies !pair_complete(
                        as_map(old_entries)[t],
                    ) by {
                        let w = choose|k: int|
                            0 <= k < old_entries.len() && (#[trigger] old_entries[k]).0 == t;
                        if w > i as int {
                            assert(old_entries[i as int].0 < old_entries[w].0);
                        }
                        lemma_value_at_index(old_entries, w);
                    };
                }
                let sns = entry.sns.unwrap();
                let sts = entry.sts.unwrap();
                return Some((ts, sns, sts));
            }
            i += 1;
        }
        proof {
            assert forall|t: int| self@.contains_key(t) implies !pair_complete(
                #[trigger] self@[t],
            ) by {
                let w = choose|k: int|
                    0 <= k < self.entries@.len() && (#[trigger] self.entries@[k]).0 == t;
                lemma_value_at_index(self.entries@, w);
            };
        }
        None
    }

    /// The number of buffered timestamps equals the entry count.
    pub proof fn lemma_dom_len(&self)
        requires
            self.wf(),
        ensures
            self@.dom().finite(),
            self@.dom().len() == self.spec_len(),
    {
        lemma_as_map_dom(self.entries@);
    }

    /// Evicts every entry older than `threshold` and returns how many
    /// were removed. Entries at or past the threshold are untouched.
    pub fn sweep_older_than(&mut self, threshold: i64) -> (removed: usize)
        requires
            old(self).wf(),
        ensures
            final(self).wf(),
            forall|t: int|
                final(self)@.contains_key(t) <==> (old(self)@.contains_key(t) && t >= threshold),
            forall|t: int|
                final(self)@.contains_key(t) ==> final(self)@[t] == #[trigger] old(self)@[t],
            removed == old(self).spec_len() - final(self).spec_len(),
    {
        let n = self.entries.len();
        let mut k: usize = 0;
        while k < n && self.entries[k].0 < threshold
            invariant
                k <= n,
                n == self.entries@.len(),
                self.wf(),
                forall|j: int| 0 <= j < k ==> (#[trigger] self.entries@[j]).0 < threshold,
            decreases n - k,
        {
            k += 1;
        }
        proof {
            assert forall|j: int| k <= j < self.entries@.len() implies (#[trigger] self.entries@[j]).0
                >= threshold by {
                if k < self.entries@.len() && j > k {
                    assert(self.entries@[k as int].0 < self.entries@[j].0);
                }
            }
        }
        let ghost old_entries = self.entries@;
        let rest = self.entries.split_off(k);
        self.entries = rest;
        proof {
            lemma_sweep(old_entries, self.entries@, k as int, threshold as int);
        }
        k
    }
}

/// Replacing the value at an occupied index leaves the keys alone and
/// updates the map at that key.
proof fn lemma_insert_update(
    old_s: Seq<(i64, MaybeTelemetry)>,
    new_s: Seq<(i64, MaybeTelemetry)>,
    i: int,
)
    requires
        sorted_entries(old_s),
        0 <= i < old_s.len(),
        new_s == old_s.update(i, (old_s[i].0, new_s[i].1)),
    ensures
        sorted_entries(new_s),
        as_map(new_s) == as_map(old_s).insert(old_s[i].0 as int, new_s[i].1),
{
    assert forall|t: int| #[trigger] as_map(new_s).contains_key(t) implies as_map(old_s).insert(
        old_s[i].0 as int,
        new_s[i].1,
    ).contains_key(t) by {
        let w = choose|k: int| 0 <= k < new_s.len() && (#[trigger] new_s[k]).0 == t;
        assert(old_s[w].0 == t);
    };
    assert forall|t: int|
        #[trigger] as_map(old_s).insert(old_s[i].0 as int, new_s[i].1).contains_key(
            t,
        ) implies as_map(new_s).contains_key(t) by {
        if t == old_s[i].0 {
            assert(new_s[i].0 == t);
        } else {
            let w = choose|k: int| 0 <= k < old_s.len() && (#[trigger] old_s[k]).0 == t;
            assert(new_s[w].0 == t);
        }
    };
    assert forall|t: int| as_map(new_s).contains_key(t) implies #[trigger] as_map(new_s)[t]
        == as_map(old_s).insert(old_s[i].0 as int, new_s[i].1)[t] by {
        let w = choose|k: int| 0 <= k < new_s.len() && (#[trigger] new_s[k]).0 == t;
        lemma_value_at_index(new_s, w);
        if t == old_s[i].0 {
            lemma_unique_key_index(new_s, w, i);
        } else {
            lemma_value_at_index(old_s, w);
        }
    };
    assert(as_map(new_s) =~= as_map(old_s).insert(old_s[i].0 as int, new_s[i].1));
}

/// Inserting a fresh key at its sorted position keeps the entries
/// sorted and inserts into the map.
proof fn lemma_insert_new(
    old_s: Seq<(i64, MaybeTelemetry)>,
    new_s: Seq<(i64, MaybeTelemetry)>,
    p: int,
    v: (i64, MaybeTelemetry),
)
    requires
        sorted_entries(old_s),
        0 <= p <= old_s.len(),
        forall|j: int| 0 <= j < p ==> (#[trigger] old_s[j]).0 < v.0,
        forall|j: int| p <= j < old_s.len() ==> (#[trigger] old_s[j]).0 > v.0,
        new_s == old_s.insert(p, v),
    ensures
        sorted_entries(new_s),
        as_map(new_s) == as_map(old_s).insert(v.0 as int, v.1),
{
    let t = v.0 as int;
    old_s.insert_ensures(p, v);
    assert(new_s.len() == old_s.len() + 1);
    assert forall|t2: int| #[trigger] as_map(new_s).contains_key(t2) implies as_map(old_s).insert(
        t,
        v.1,
    ).contains_key(t2) by {
        let w = choose|k: int| 0 <= k < new_s.len() && (#[trigger] new_s[k]).0 == t2;
        if w < p {
            assert(old_s[w].0 == t2);
        } else if w > p {
            assert(old_s[w - 1].0 == t2);
        }
    };
    assert forall|t2: int|
        #[trigger] as_map(old_s).insert(t, v.1).contains_key(t2) implies as_map(
        new_s,
    ).contains_key(t2) by {
        if t2 == t {
            assert(new_s[p].0 == t2);
        } else {
            let w = choose|k: int| 0 <= k < old_s.len() && (#[trigger] old_s[k]).0 == t2;
            if w < p {
                assert(new_s[w].0 == t2);
            } else {
                assert(new_s[w + 1].0 == t2);
            }
        }
    };
    assert forall|t2: int| as_map(new_s).contains_key(t2) implies #[trigger] as_map(new_s)[t2]
        == as_map(old_s).insert(t, v.1)[t2] by {
        let w = choose|k: int| 0 <= k < new_s.len() && (#[trigger] new_s[k]).0 == t2;
        lemma_value_at_index(new_s, w);
        if t2 == t {
            lemma_unique_key_index(new_s, w, p);
        } else if w < p {
            lemma_value_at_index(old_s, w);
        } else {
            lemma_value_at_index(old_s, w - 1);
        }
    };
    assert(as_map(new_s) =~= as_map(old_s).insert(t, v.1));
}

/// Removing the entry at an index removes its key from the map.
proof fn lemma_remove_entry(
    old_s: Seq<(i64, MaybeTelemetry)>,
    new_s: Seq<(i64, MaybeTelemetry)>,
    i: int,
)
    requires
        sorted_entries(old_s),
        0 <= i < old_s.len(),
        new_s == old_s.remove(i),
    ensures
        sorted_entries(new_s),
        as_map(new_s) == as_map(old_s).remove(old_s[i].0 as int),
{
    old_s.remove_ensures(i);
    assert(new_s.len() == old_s.len() - 1);
    assert forall|t: int| #[trigger] as_map(new_s).contains_key(t) implies as_map(old_s).remove(
        old_s[i].0 as int,
    ).contains_key(t) by {
        let w = choose|k: int| 0 <= k < new_s.len() && (#[trigger] new_s[k]).0 == t;
        if w < i {
            assert(old_s[w].0 == t);
            assert(old_s[w].0 < old_s[i].0);
        } else {
            assert(old_s[w + 1].0 == t);
            assert(old_s[i].0 < old_s[w + 1].0);
        }
    };
    assert forall|t: int|
        #[trigger] as_map(old_s).remove(old_s[i].0 as int).contains_key(t) implies as_map(
        new_s,
    ).contains_key(t) by {
        let w = choose|k: int| 0 <= k < old_s.len() && (#[trigger] old_s[k]).0 == t;
        if w < i {
            assert(new_s[w].0 == t);
        } else {
            assert(w != i);
            assert(new_s[w - 1].0 == t);
        }
    };
    assert forall|t: int| as_map(new_s).contains_key(t) implies #[trigger] as_map(new_s)[t]
        == as_map(old_s).remove(old_s[i].0 as int)[t] by {
        let w = choose|k: int| 0 <= k < new_s.len() && (#[trigger] new_s[k]).0 == t;
        lemma_value_at_index(new_s, w);
        if w < i {
            lemma_value_at_index(old_s, w);
        } else {
            lemma_value_at_index(old_s, w + 1);
        }
    };
    assert(as_map(new_s) =~= as_map(old_s).remove(old_s[i].0 as int));
}

/// The map view of sorted entries has one key per entry.
proof fn lemma_as_map_dom(s: Seq<(i64, MaybeTelemetry)>)
    requires
        sorted_entries(s),
    ensures
        as_map(s).dom().finite(),
        as_map(s).dom().len() == s.len(),
    decreases s.len(),
{
    if s.len() == 0 {
        assert(as_map(s).dom() =~= Set::<int>::empty());
    } else {
        let prefix = s.drop_last();
        let last = s.last();
        lemma_as_map_dom(prefix);
        assert(s =~= prefix.insert(prefix.len() as int, last));
        lemma_insert_new(prefix, s, prefix.len() as int, last);
        assert(as_map(s).dom() =~= as_map(prefix).dom().insert(last.0 as int));
        assert(!as_map(prefix).dom().contains(last.0 as int));
    }
}

proof fn lemma_sweep(
    old_s: Seq<(i64, MaybeTelemetry)>,
    new_s: Seq<(i64, MaybeTelemetry)>,
    k: int,
    threshold: int,
)
    requires
        sorted_entries(old_s),
        0 <= k <= old_s.len(),
        forall|j: int| 0 <= j < k ==> (#[trigger] old_s[j]).0 < threshold,
        forall|j: int| k <= j < old_s.len() ==> (#[trigger] old_s[j]).0 >= threshold,
        new_s == old_s.subrange(k, old_s.len() as int),
    ensures
        sorted_entries(new_s),
        forall|t: int|
            as_map(new_s).contains_key(t) <==> (as_map(old_s).contains_key(t) && t >= threshold),
        forall|t: int|
            as_map(new_s).contains_key(t) ==> as_map(new_s)[t] == #[trigger] as_map(old_s)[t],
{
    assert forall|t: int|
        as_map(new_s).contains_key(t) <==> (as_map(old_s).contains_key(t) && t
            >= threshold) by {
        if as_map(new_s).contains_key(t) {
            let w = choose|i: int| 0 <= i < new_s.len() && (#[trigger] new_s[i]).0 == t;
            assert(old_s[w + k].0 == t);
        }
        if as_map(old_s).contains_key(t) && t >= threshold {
            let w = choose|i: int| 0 <= i < old_s.len() && (#[trigger] old_s[i]).0 == t;
            assert(w >= k);
            assert(new_s[w - k].0 == t);
        }
    };
    assert forall|t: int| as_map(new_s).contains_key(t) implies as_map(new_s)[t]
        == #[trigger] as_map(old_s)[t] by {
        let w = choose|i: int| 0 <= i < new_s.len() && (#[trigger] new_s[i]).0 == t;
        lemma_value_at_index(new_s, w);
        lemma_value_at_index(old_s, w + k);
    };
}

} // verus!
