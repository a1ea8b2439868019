use vstd::prelude::*;

use crate::configuration::Configuration;
use crate::event::{keys_eq, Event, EventModel, Timestamp};
use crate::fingerprint::{
    lemma_xor_all_insert, lemma_xor_all_push, lemma_xor_all_remove, lemma_xor_all_update,
    lemma_xor_cancel_mid, lemma_xor_zero, xor_all, Fingerprint,
};

verus! {

/// The outcome of asking a container to make room for an event:
///
/// - `RemovedOlder(old)`: an event with the same key but an older timestamp
///   was removed and is returned;
/// - `KeptNewer`: an event with the same key and a timestamp at least as
///   recent is kept; nothing changed;
/// - `NotFound`: no event with that key is tracked here.
#[derive(Debug, Clone)]
pub enum EventRemoval {
    RemovedOlder(Event),
    KeptNewer,
    NotFound,
}

/// The key-to-event map described by a sequence of events; later entries win.
pub open spec fn events_map(s: Seq<Event>) -> Map<Option<Seq<u8>>, EventModel>
    decreases s.len(),
{
    if s.len() == 0 {
        Map::empty()
    } else {
        events_map(s.drop_last()).insert(s.last().key(), s.last().model())
    }
}

/// A key is in the map exactly when some event carries it.
pub proof fn lemma_events_map_dom(s: Seq<Event>, k: Option<Seq<u8>>)
    ensures
        events_map(s).dom().contains(k) <==> exists|i: int| 0 <= i < s.len() && s[i].key() == k,
    decreases s.len(),
{
    if s.len() > 0 {
        lemma_events_map_dom(s.drop_last(), k);
        if events_map(s).dom().contains(k) {
            if k == s.last().key() {
                assert(s[s.len() - 1].key() == k);
            } else {
                let i = choose|i: int| 0 <= i < s.drop_last().len() && s.drop_last()[i].key() == k;
                assert(s.drop_last()[i] == s[i]);
                assert(s[i].key() == k);
            }
        }
        if exists|i: int| 0 <= i < s.len() && s[i].key() == k {
            let i = choose|i: int| 0 <= i < s.len() && s[i].key() == k;
            if i < s.len() - 1 {
                assert(s.drop_last()[i].key() == k);
            }
        }
    }
}

/// No two events carry the same key.
pub open spec fn unique_keys(s: Seq<Event>) -> bool {
    forall|i: int, j: int| 0 <= i < j < s.len() ==> s[i].key() != s[j].key()
}

/// Under unique keys, the map sends each event's key to that event.
pub proof fn lemma_events_map_index(s: Seq<Event>, i: int)
    requires
        unique_keys(s),
        0 <= i < s.len(),
    ensures
        events_map(s)[s[i].key()] == s[i].model(),
    decreases s.len(),
{
    if i == s.len() - 1 {
    } else {
        assert(s.drop_last()[i] == s[i]);
        lemma_events_map_index(s.drop_last(), i);
        assert(s[i].key() != s.last().key());
    }
}

/// Under unique keys, removing the event at `i` removes exactly its key.
pub proof fn lemma_events_map_remove(s: Seq<Event>, i: int)
    requires
        unique_keys(s),
        0 <= i < s.len(),
    ensures
        events_map(s.remove(i)) =~= events_map(s).remove(s[i].key()),
    decreases s.len(),
{
    if i == s.len() - 1 {
        assert(s.remove(i) =~= s.drop_last());
        if events_map(s.drop_last()).dom().contains(s[i].key()) {
            lemma_events_map_dom(s.drop_last(), s[i].key());
            let j = choose|j: int|
                0 <= j < s.drop_last().len() && s.drop_last()[j].key() == s[i].key();
            assert(s.drop_last()[j] == s[j]);
            assert(s[j].key() == s[i].key());
            assert(false);
        }
        assert(events_map(s.remove(i)) =~= events_map(s).remove(s[i].key()));
    } else {
        let t = s.drop_last();
        assert forall|a: int, b: int| 0 <= a < b < t.len() implies t[a].key() != t[b].key() by {
            assert(t[a] == s[a]);
            assert(t[b] == s[b]);
        }
        assert(s.remove(i).drop_last() =~= t.remove(i));
        assert(s.remove(i).last() == s.last());
        lemma_events_map_remove(t, i);
        assert(t[i] == s[i]);
        assert(s[i].key() != s.last().key());
        assert(events_map(s.remove(i)) =~= events_map(s).remove(s[i].key()));
    }
}

/// A keyed sequence read as a map; later entries win.
pub open spec fn pairs_map<V>(s: Seq<(u64, V)>) -> Map<u64, V>
    decreases s.len(),
{
    if s.len() == 0 {
        Map::empty()
    } else {
        pairs_map(s.drop_last()).insert(s.last().0, s.last().1)
    }
}

/// The first components are strictly increasing, so every key occurs once.
pub open spec fn strictly_increasing<V>(s: Seq<(u64, V)>) -> bool {
    forall|i: int, j: int| 0 <= i < j < s.len() ==> (#[trigger] s[i]).0 < (#[trigger] s[j]).0
}

/// A key is in the map exactly when some pair carries it.
pub proof fn lemma_pairs_map_dom<V>(s: Seq<(u64, V)>, x: u64)
    ensures
        pairs_map(s).dom().contains(x) <==> exists|i: int| 0 <= i < s.len() && (#[trigger] s[i]).0
            == x,
    decreases s.len(),
{
    if s.len() > 0 {
        lemma_pairs_map_dom(s.drop_last(), x);
        if pairs_map(s).dom().contains(x) {
            if x == s.last().0 {
                assert(s[s.len() - 1].0 == x);
            } else {
                let i = choose|i: int| 0 <= i < s.drop_last().len() && (#[trigger] s.drop_last()[i]).0
                    == x;
                assert(s[i].0 == x);
            }
        }
        if exists|i: int| 0 <= i < s.len() && (#[trigger] s[i]).0 == x {
            let i = choose|i: int| 0 <= i < s.len() && (#[trigger] s[i]).0 == x;
            if i < s.len() - 1 {
                assert(s.drop_last()[i].0 == x);
            }
        }
    }
}

/// Under unique keys, the map sends each pair's key to its value.
pub proof fn lemma_pairs_map_index<V>(s: Seq<(u64, V)>, i: int)
    requires
        0 <= i < s.len(),
        forall|j: int| 0 <= j < s.len() && j != i ==> (#[trigger] s[j]).0 != s[i].0,
    ensures
        pairs_map(s).dom().contains(s[i].0),
        pairs_map(s)[s[i].0] == s[i].1,
    decreases s.len(),
{
    if i == s.len() - 1 {
    } else {
        assert(s.drop_last()[i] == s[i]);
        assert forall|j: int| 0 <= j < s.drop_last().len() && j != i implies (#[trigger] s.drop_last()[
            j]).0 != s.drop_last()[i].0 by {
            assert(s.drop_last()[j] == s[j]);
        }
        lemma_pairs_map_index(s.drop_last(), i);
        assert(s[s.len() - 1].0 != s[i].0);
    }
}

/// A strictly increasing sequence of keys below `n` has at most `n` entries.
pub proof fn lemma_strictly_increasing_bounded<V>(s: Seq<(u64, V)>, n: u64)
    requires
        strictly_increasing(s),
        forall|i: int| 0 <= i < s.len() ==> (#[trigger] s[i]).0 < n,
    ensures
        s.len() <= n,
    decreases s.len(),
{
    if s.len() > 0 {
        let t = s.drop_last();
        let last = s[s.len() - 1].0;
        assert forall|i: int| 0 <= i < t.len() implies (#[trigger] t[i]).0 < last by {
            assert(t[i] == s[i]);
            assert(s[i].0 < s[s.len() - 1].0);
        }
        assert forall|i: int, j: int| 0 <= i < j < t.len() implies (#[trigger] t[i]).0 < (
        #[trigger] t[j]).0 by {
            assert(t[i] == s[i]);
            assert(t[j] == s[j]);
        }
        lemma_strictly_increasing_bounded(t, last);
    }
}

/// Every event of the sequence belongs to interval `idx`, sub-interval
/// `sidx`, under the classification of `cfg`.
pub open spec fn events_placed(cfg: Configuration, idx: u64, sidx: u64, events: Seq<Event>) -> bool {
    forall|n: int|
        0 <= n < events.len() ==> {
            &&& cfg.spec_in_bound((#[trigger] events[n]).timestamp.time)
            &&& idx == cfg.spec_interval_of(events[n].timestamp.time)
            &&& sidx == cfg.spec_sub_interval_of(events[n].timestamp.time)
        }
}

/// Every event held anywhere in the sub-intervals belongs to interval `idx`
/// and to the sub-interval that holds it.
pub open spec fn interval_placed(cfg: Configuration, idx: u64, subs: Seq<(u64, SubInterval)>) -> bool {
    forall|j: int|
        0 <= j < subs.len() ==> events_placed(cfg, idx, (#[trigger] subs[j]).0, subs[j].1.events@)
}

/// A sub-interval: the events of one slice of time, at most one per key, with
/// the XOR of their fingerprints kept up to date.
#[derive(Debug)]
pub struct SubInterval {
    pub events: Vec<Event>,
    pub fingerprint: Fingerprint,
}

impl SubInterval {
    /// The fingerprints of the events, in storage order.
    pub open spec fn fingerprints(self) -> Seq<Fingerprint> {
        self.events@.map_values(|e: Event| e.fingerprint)
    }

    /// At most one event per key, and the cached fingerprint is the XOR of
    /// the events' fingerprints.
    pub open spec fn wf(self) -> bool {
        &&& unique_keys(self.events@)
        &&& self.fingerprint == xor_all(self.fingerprints())
    }

    /// The key-to-event map of this sub-interval.
    pub open spec fn as_map(self) -> Map<Option<Seq<u8>>, EventModel> {
        events_map(self.events@)
    }

    pub open spec fn contains_key(self, k: Option<Seq<u8>>) -> bool {
        exists|i: int| 0 <= i < self.events@.len() && self.events@[i].key() == k
    }

    /// An empty sub-interval.
    pub fn new() -> (r: SubInterval)
        ensures
            r.wf(),
            r.as_map() == Map::<Option<Seq<u8>>, EventModel>::empty(),
            r.events@.len() == 0,
            r.fingerprint == Fingerprint::spec_zero(),
    {
        SubInterval { events: Vec::new(), fingerprint: Fingerprint::zero() }
    }

    /// The position of the event carrying `key`, if one is tracked.
    fn position_of(&self, key: &Option<Vec<u8>>) -> (r: Option<usize>)
        ensures
            match r {
                Some(i) => i < self.events@.len() && self.events@[i as int].key()
                    == key.deep_view(),
                None => !self.contains_key(key.deep_view()),
            },
    {
        let mut i: usize = 0;
        while i < self.events.len()
            invariant
                i <= self.events@.len(),
                forall|j: int| 0 <= j < i ==> self.events@[j].key() != key.deep_view(),
            decreases self.events@.len() - i,
        {
            if keys_eq(&self.events[i].maybe_stripped_key, key) {
                return Some(i);
            }
            i = i + 1;
        }
        None
    }

    /// Inserts an event whose key is known not to be tracked here, and XORs
    /// its fingerprint in.
    pub fn insert_unchecked(&mut self, event: Event)
        requires
            old(self).wf(),
            !old(self).contains_key(event.key()),
        ensures
            final(self).wf(),
            final(self).events@ == old(self).events@.push(event),
            final(self).as_map() == old(self).as_map().insert(event.key(), event.model()),
            final(self).fingerprint == old(self).fingerprint.spec_xor(event.fingerprint),
            forall|k2: Option<Seq<u8>>| #[trigger]
                final(self).contains_key(k2) <==> (old(self).contains_key(k2) || k2
                    == event.key()),
            forall|cfg: Configuration, idx: u64, sidx: u64|
                (events_placed(cfg, idx, sidx, old(self).events@) && cfg.spec_in_bound(
                    event.timestamp.time,
                ) && idx == cfg.spec_interval_of(event.timestamp.time) && sidx
                    == cfg.spec_sub_interval_of(event.timestamp.time)) ==> #[trigger] events_placed(
                    cfg,
                    idx,
                    sidx,
                    final(self).events@,
                ),
    {
        self.fingerprint = self.fingerprint.xor(event.fingerprint());
        let ghost old_events = self.events@;
        let ghost the_event = event;
        self.events.push(event);
        proof {
            assert(self.events@.drop_last() =~= old_events);
            assert(self.fingerprints() =~= old(self).fingerprints().push(event.fingerprint));
            lemma_xor_all_push(old(self).fingerprints(), event.fingerprint);
            assert forall|i: int, j: int| 0 <= i < j < self.events@.len() implies self.events@[i].key()
                != self.events@[j].key() by {
                if j == self.events@.len() - 1 {
                    assert(old_events[i].key() != event.key());
                }
            }
            assert forall|k2: Option<Seq<u8>>| #[trigger]
                self.contains_key(k2) implies (old(self).contains_key(k2) || k2 == event.key()) by {
                let i = choose|i: int|
                    0 <= i < self.events@.len() && self.events@[i].key() == k2;
                if i < self.events@.len() - 1 {
                    assert(old_events[i].key() == k2);
                }
            }
            assert forall|k2: Option<Seq<u8>>|
                (old(self).contains_key(k2) || k2 == event.key()) implies #[trigger]
                self.contains_key(k2) by {
                if old(self).contains_key(k2) {
                    let i = choose|i: int|
                        0 <= i < old_events.len() && old_events[i].key() == k2;
                    assert(self.events@[i].key() == k2);
                } else {
                    assert(self.events@[self.events@.len() - 1].key() == k2);
                }
            }
            assert forall|cfg: Configuration, idx: u64, sidx: u64|
                events_placed(cfg, idx, sidx, old_events) && cfg.spec_in_bound(
                    the_event.timestamp.time,
                ) && idx == cfg.spec_interval_of(the_event.timestamp.time) && sidx
                    == cfg.spec_sub_interval_of(the_event.timestamp.time) implies #[trigger] events_placed(
                cfg,
                idx,
                sidx,
                self.events@,
            ) by {
                assert forall|n: int| 0 <= n < self.events@.len() implies {
                    &&& cfg.spec_in_bound((#[trigger] self.events@[n]).timestamp.time)
                    &&& idx == cfg.spec_interval_of(self.events@[n].timestamp.time)
                    &&& sidx == cfg.spec_sub_interval_of(self.events@[n].timestamp.time)
                } by {
                    if n < self.events@.len() - 1 {
                        assert(self.events@[n] == old_events[n]);
                    } else {
                        assert(self.events@[n] == the_event);
                    }
                }
            }
        }
    }

    /// Removes the event carrying `key`, if one is tracked, and XORs its
    /// fingerprint out.
    pub fn remove(&mut self, key: &Option<Vec<u8>>) -> (r: Option<Event>)
        requires
            old(self).wf(),
        ensures
            final(self).wf(),
            match r {
                Some(e) => {
                    &&& old(self).contains_key(key.deep_view())
                    &&& e.key() == key.deep_view()
                    &&& e.model() == old(self).as_map()[key.deep_view()]
                    &&& final(self).as_map() == old(self).as_map().remove(key.deep_view())
                    &&& final(self).fingerprint == old(self).fingerprint.spec_xor(e.fingerprint)
                    &&& forall|k2: Option<Seq<u8>>| #[trigger]
                        final(self).contains_key(k2) <==> (old(self).contains_key(k2) && k2
                            != key.deep_view())
                    &&& forall|cfg: Configuration, idx: u64, sidx: u64|
                        events_placed(cfg, idx, sidx, old(self).events@) ==> #[trigger] events_placed(
                            cfg,
                            idx,
                            sidx,
                            final(self).events@,
                        )
                },
                None => {
                    &&& !old(self).contains_key(key.deep_view())
                    &&& *final(self) == *old(self)
                },
            },
    {
        match self.position_of(key) {
            Some(i) => {
                let event = self.events.remove(i);
                self.fingerprint = self.fingerprint.xor(event.fingerprint());
                proof {
                    lemma_events_map_index(old(self).events@, i as int);
                    lemma_events_map_remove(old(self).events@, i as int);
                    assert(self.fingerprints() =~= old(self).fingerprints().remove(i as int));
                    lemma_xor_all_remove(old(self).fingerprints(), i as int);
                    assert forall|a: int, b: int| 0 <= a < b < self.events@.len() implies self
                        .events@[a].key() != self.events@[b].key() by {
                        let oa = if a < i { a } else { a + 1 };
                        let ob = if b < i { b } else { b + 1 };
                        assert(old(self).events@[oa].key() != old(self).events@[ob].key());
                    }
                    assert forall|k2: Option<Seq<u8>>| #[trigger]
                        self.contains_key(k2) implies (old(self).contains_key(k2) && k2
                            != key.deep_view()) by {
                        let j = choose|j: int|
                            0 <= j < self.events@.len() && self.events@[j].key() == k2;
                        let oj = if j < i { j } else { j + 1 };
                        assert(old(self).events@[oj].key() == k2);
                        assert(oj != i ==> old(self).events@[oj].key() != old(
                            self,
                        ).events@[i as int].key());
                    }
                    assert forall|k2: Option<Seq<u8>>|
                        (old(self).contains_key(k2) && k2 != key.deep_view()) implies #[trigger]
                        self.contains_key(k2) by {
                        let j = choose|j: int|
                            0 <= j < old(self).events@.len() && old(self).events@[j].key() == k2;
                        let nj = if j < i { j } else { j - 1 };
                        assert(self.events@[nj].key() == k2);
                    }
                    assert forall|cfg: Configuration, idx: u64, sidx: u64|
                        events_placed(cfg, idx, sidx, old(self).events@) implies #[trigger] events_placed(
                        cfg,
                        idx,
                        sidx,
                        self.events@,
                    ) by {
                        assert forall|n: int| 0 <= n < self.events@.len() implies {
                            &&& cfg.spec_in_bound((#[trigger] self.events@[n]).timestamp.time)
                            &&& idx == cfg.spec_interval_of(self.events@[n].timestamp.time)
                            &&& sidx == cfg.spec_sub_interval_of(self.events@[n].timestamp.time)
                        } by {
                            let on = if n < i { n } else { n + 1 };
                            assert(self.events@[n] == old(self).events@[on]);
                        }
                    }
                }
                Some(event)
            },
            None => None,
        }
    }

    /// If the tracked event for `key` is older than `timestamp`, removes it;
    /// keeps it when it is at least as recent.
    pub fn if_newer_remove_older(&mut self, key: &Option<Vec<u8>>, timestamp: &Timestamp) -> (r:
        EventRemoval)
        requires
            old(self).wf(),
        ensures
            final(self).wf(),
            match r {
                EventRemoval::NotFound => {
                    &&& !old(self).contains_key(key.deep_view())
                    &&& *final(self) == *old(self)
                },
                EventRemoval::KeptNewer => {
                    &&& old(self).contains_key(key.deep_view())
                    &&& timestamp.spec_le(old(self).as_map()[key.deep_view()].timestamp)
                    &&& *final(self) == *old(self)
                },
                EventRemoval::RemovedOlder(e) => {
                    &&& old(self).contains_key(key.deep_view())
                    &&& e.key() == key.deep_view()
                    &&& e.model() == old(self).as_map()[key.deep_view()]
                    &&& e.timestamp.spec_lt(*timestamp)
                    &&& final(self).as_map() == old(self).as_map().remove(key.deep_view())
                    &&& final(self).fingerprint == old(self).fingerprint.spec_xor(e.fingerprint)
                    &&& forall|k2: Option<Seq<u8>>| #[trigger]
                        final(self).contains_key(k2) <==> (old(self).contains_key(k2) && k2
                            != key.deep_view())
                },
            },
    {
        match self.position_of(key) {
            Some(i) => {
                proof {
                    lemma_events_map_index(self.events@, i as int);
                }
                if timestamp.le(&self.events[i].timestamp) {
                    EventRemoval::KeptNewer
                } else {
                    let removed = self.remove(key);
                    match removed {
                        Some(e) => EventRemoval::RemovedOlder(e),
                        None => {
                            proof {
                                assert(false);
                            }
                            EventRemoval::NotFound
                        },
                    }
                }
            },
            None => EventRemoval::NotFound,
        }
    }

    /// Returns the tracked event for `key`, if any.
    pub fn lookup(&self, key: &Option<Vec<u8>>) -> (r: Option<&Event>)
        ensures
            match r {
                Some(e) => {
                    &&& self.contains_key(key.deep_view())
                    &&& e.key() == key.deep_view()
                    &&& self.wf() ==> e.model() == self.as_map()[key.deep_view()]
                },
                None => !self.contains_key(key.deep_view()),
            },
    {
        match self.position_of(key) {
            Some(i) => {
                proof {
                    if self.wf() {
                        lemma_events_map_index(self.events@, i as int);
                    }
                }
                Some(&self.events[i])
            },
            None => None,
        }
    }

    /// The cached XOR of the fingerprints of the tracked events.
    pub fn fingerprint(&self) -> (r: Fingerprint)
        ensures
            r == self.fingerprint,
    {
        self.fingerprint
    }
}

/// The key-to-event map described by a sequence of sub-intervals.
pub open spec fn interval_map(s: Seq<(u64, SubInterval)>) -> Map<Option<Seq<u8>>, EventModel>
    decreases s.len(),
{
    if s.len() == 0 {
        Map::empty()
    } else {
        interval_map(s.drop_last()).union_prefer_right(s.last().1.as_map())
    }
}

/// A key is in the combined map exactly when some sub-interval tracks it.
pub proof fn lemma_interval_map_dom(s: Seq<(u64, SubInterval)>, k: Option<Seq<u8>>)
    ensures
        interval_map(s).dom().contains(k) <==> exists|i: int|
            0 <= i < s.len() && (#[trigger] s[i]).1.contains_key(k),
    decreases s.len(),
{
    if s.len() > 0 {
        lemma_interval_map_dom(s.drop_last(), k);
        lemma_events_map_dom(s.last().1.events@, k);
        if interval_map(s).dom().contains(k) {
            if s.last().1.as_map().dom().contains(k) {
                assert(s[s.len() - 1].1.contains_key(k));
            } else {
                let i = choose|i: int|
                    0 <= i < s.drop_last().len() && (#[trigger] s.drop_last()[i]).1.contains_key(k);
                assert(s[i].1.contains_key(k));
            }
        }
        if exists|i: int| 0 <= i < s.len() && (#[trigger] s[i]).1.contains_key(k) {
            let i = choose|i: int| 0 <= i < s.len() && (#[trigger] s[i]).1.contains_key(k);
            if i < s.len() - 1 {
                assert(s.drop_last()[i].1.contains_key(k));
            }
        }
    }
}

/// When only sub-interval `i` tracks `k`, the combined map reads `k` there.
pub proof fn lemma_interval_map_index(s: Seq<(u64, SubInterval)>, i: int, k: Option<Seq<u8>>)
    requires
        0 <= i < s.len(),
        s[i].1.contains_key(k),
        forall|j: int| 0 <= j < s.len() && j != i ==> !(#[trigger] s[j]).1.contains_key(k),
    ensures
        interval_map(s).dom().contains(k),
        interval_map(s)[k] == s[i].1.as_map()[k],
    decreases s.len(),
{
    lemma_events_map_dom(s.last().1.events@, k);
    if i == s.len() - 1 {
    } else {
        assert(s.drop_last()[i] == s[i]);
        assert forall|j: int| 0 <= j < s.drop_last().len() && j != i implies !(#[trigger] s.drop_last()[
            j]).1.contains_key(k) by {
            assert(s.drop_last()[j] == s[j]);
        }
        lemma_interval_map_index(s.drop_last(), i, k);
        assert(!s[s.len() - 1].1.contains_key(k));
    }
}

/// Replacing sub-interval `i` by one whose map lost `k` removes `k` from the
/// combined map, provided no other sub-interval tracks `k`.
pub proof fn lemma_interval_map_update_remove(
    s: Seq<(u64, SubInterval)>,
    i: int,
    p: (u64, SubInterval),
    k: Option<Seq<u8>>,
)
    requires
        0 <= i < s.len(),
        p.1.as_map() == s[i].1.as_map().remove(k),
        forall|j: int| 0 <= j < s.len() && j != i ==> !(#[trigger] s[j]).1.contains_key(k),
    ensures
        interval_map(s.update(i, p)) =~= interval_map(s).remove(k),
    decreases s.len(),
{
    lemma_events_map_dom(s.last().1.events@, k);
    if i == s.len() - 1 {
        assert(s.update(i, p).drop_last() =~= s.drop_last());
        assert(s.update(i, p).last() == p);
        lemma_interval_map_dom(s.drop_last(), k);
        assert forall|j: int| 0 <= j < s.drop_last().len() implies !(#[trigger] s.drop_last()[j]).1.contains_key(
            k,
        ) by {
            assert(s.drop_last()[j] == s[j]);
        }
        assert(!interval_map(s.drop_last()).dom().contains(k));
        assert(interval_map(s.update(i, p)) =~= interval_map(s).remove(k));
    } else {
        assert(s.update(i, p).drop_last() =~= s.drop_last().update(i, p));
        assert(s.update(i, p).last() == s.last());
        assert(s.drop_last()[i] == s[i]);
        assert forall|j: int| 0 <= j < s.drop_last().len() && j != i implies !(#[trigger] s.drop_last()[
            j]).1.contains_key(k) by {
            assert(s.drop_last()[j] == s[j]);
        }
        lemma_interval_map_update_remove(s.drop_last(), i, p, k);
        assert(!s[s.len() - 1].1.contains_key(k));
        assert(!s.last().1.as_map().dom().contains(k));
        assert(interval_map(s.update(i, p)) =~= interval_map(s).remove(k));
    }
}

/// Replacing sub-interval `i` by one whose map gained `k` inserts `k` into
/// the combined map, provided no sub-interval tracked `k` before.
pub proof fn lemma_interval_map_update_insert(
    s: Seq<(u64, SubInterval)>,
    i: int,
    p: (u64, SubInterval),
    k: Option<Seq<u8>>,
    m: EventModel,
)
    requires
        0 <= i < s.len(),
        p.1.as_map() == s[i].1.as_map().insert(k, m),
        forall|j: int| 0 <= j < s.len() ==> !(#[trigger] s[j]).1.contains_key(k),
    ensures
        interval_map(s.update(i, p)) =~= interval_map(s).insert(k, m),
    decreases s.len(),
{
    lemma_events_map_dom(s.last().1.events@, k);
    if i == s.len() - 1 {
        assert(s.update(i, p).drop_last() =~= s.drop_last());
        assert(s.update(i, p).last() == p);
        assert(interval_map(s.update(i, p)) =~= interval_map(s).insert(k, m));
    } else {
        assert(s.update(i, p).drop_last() =~= s.drop_last().update(i, p));
        assert(s.update(i, p).last() == s.last());
        assert(s.drop_last()[i] == s[i]);
        assert forall|j: int| 0 <= j < s.drop_last().len() implies !(#[trigger] s.drop_last()[j]).1.contains_key(
            k,
        ) by {
            assert(s.drop_last()[j] == s[j]);
        }
        lemma_interval_map_update_insert(s.drop_last(), i, p, k, m);
        assert(!s[s.len() - 1].1.contains_key(k));
        assert(!s.last().1.as_map().dom().contains(k));
        assert(interval_map(s.update(i, p)) =~= interval_map(s).insert(k, m));
    }
}

/// Inserting a sub-interval that tracks only `k` inserts `k` into the
/// combined map, provided no sub-interval tracked `k` before.
pub proof fn lemma_interval_map_insert_pair(
    s: Seq<(u64, SubInterval)>,
    i: int,
    p: (u64, SubInterval),
    k: Option<Seq<u8>>,
    m: EventModel,
)
    requires
        0 <= i <= s.len(),
        p.1.as_map() == Map::<Option<Seq<u8>>, EventModel>::empty().insert(k, m),
        forall|j: int| 0 <= j < s.len() ==> !(#[trigger] s[j]).1.contains_key(k),
    ensures
        interval_map(s.insert(i, p)) =~= interval_map(s).insert(k, m),
    decreases s.len(),
{
    if i == s.len() {
        assert(s.insert(i, p).drop_last() =~= s);
        assert(s.insert(i, p).last() == p);
        assert(interval_map(s.insert(i, p)) =~= interval_map(s).insert(k, m));
    } else {
        lemma_events_map_dom(s.last().1.events@, k);
        assert(s.insert(i, p).drop_last() =~= s.drop_last().insert(i, p));
        assert(s.insert(i, p).last() == s.last());
        assert forall|j: int| 0 <= j < s.drop_last().len() implies !(#[trigger] s.drop_last()[j]).1.contains_key(
            k,
        ) by {
            assert(s.drop_last()[j] == s[j]);
        }
        lemma_interval_map_insert_pair(s.drop_last(), i, p, k, m);
        assert(!s[s.len() - 1].1.contains_key(k));
        assert(!s.last().1.as_map().dom().contains(k));
        assert(interval_map(s.insert(i, p)) =~= interval_map(s).insert(k, m));
    }
}

/// The per-sub-interval fingerprints of a sequence of sub-intervals, empty
/// ones left out.
pub open spec fn sub_fp_map(s: Seq<(u64, SubInterval)>) -> Map<u64, Fingerprint>
    decreases s.len(),
{
    if s.len() == 0 {
        Map::empty()
    } else if s.last().1.fingerprint == Fingerprint::spec_zero() {
        sub_fp_map(s.drop_last())
    } else {
        sub_fp_map(s.drop_last()).insert(s.last().0, s.last().1.fingerprint)
    }
}

/// An interval: its sub-intervals, keyed and ordered by sub-interval index,
/// with the XOR of their fingerprints kept up to date.
#[derive(Debug)]
pub struct Interval {
    pub sub_intervals: Vec<(u64, SubInterval)>,
    pub fingerprint: Fingerprint,
}

impl Interval {
    /// The cached fingerprints of the sub-intervals, in storage order.
    pub open spec fn fingerprints(self) -> Seq<Fingerprint> {
        self.sub_intervals@.map_values(|p: (u64, SubInterval)| p.1.fingerprint)
    }

    /// Sub-intervals are sorted by index, each is well formed, no key is
    /// tracked twice, and the cached fingerprint is the XOR of theirs.
    pub open spec fn wf(self) -> bool {
        &&& strictly_increasing(self.sub_intervals@)
        &&& forall|i: int|
            0 <= i < self.sub_intervals@.len() ==> (#[trigger] self.sub_intervals@[i]).1.wf()
        &&& forall|i: int, j: int, k: Option<Seq<u8>>|
            #![trigger self.sub_intervals@[i].1.contains_key(k), self.sub_intervals@[j].1.contains_key(k)]
            0 <= i < j < self.sub_intervals@.len() ==> !(self.sub_intervals@[i].1.contains_key(k)
                && self.sub_intervals@[j].1.contains_key(k))
        &&& self.fingerprint == xor_all(self.fingerprints())
    }

    /// The key-to-event map of this interval.
    pub open spec fn as_map(self) -> Map<Option<Seq<u8>>, EventModel> {
        interval_map(self.sub_intervals@)
    }

    pub open spec fn contains_key(self, k: Option<Seq<u8>>) -> bool {
        exists|i: int| 0 <= i < self.sub_intervals@.len() && (#[trigger] self.sub_intervals@[i]).1.contains_key(
            k,
        )
    }

    /// The map from sub-interval index to fingerprint, empty ones left out.
    pub open spec fn spec_sub_fingerprints(self) -> Map<u64, Fingerprint> {
        sub_fp_map(self.sub_intervals@)
    }

    /// An empty interval.
    pub fn new() -> (r: Interval)
        ensures
            r.wf(),
            r.as_map() == Map::<Option<Seq<u8>>, EventModel>::empty(),
            r.sub_intervals@.len() == 0,
            r.fingerprint == Fingerprint::spec_zero(),
    {
        Interval { sub_intervals: Vec::new(), fingerprint: Fingerprint::zero() }
    }

    /// Inserts an event whose key is known not to be tracked in this interval
    /// into the sub-interval `sub_idx`, creating it if absent, and XORs the
    /// event's fingerprint in.
    pub fn insert_unchecked(&mut self, sub_idx: u64, event: Event)
        requires
            old(self).wf(),
            !old(self).contains_key(event.key()),
        ensures
            final(self).wf(),
            final(self).as_map() == old(self).as_map().insert(event.key(), event.model()),
            final(self).fingerprint == old(self).fingerprint.spec_xor(event.fingerprint),
            forall|k2: Option<Seq<u8>>| #[trigger]
                final(self).contains_key(k2) <==> (old(self).contains_key(k2) || k2
                    == event.key()),
            forall|j: int|
                0 <= j < final(self).sub_intervals@.len() ==> ((#[trigger] final(self).sub_intervals@[j]).0
                    == sub_idx || exists|j0: int|
                    0 <= j0 < old(self).sub_intervals@.len() && final(self).sub_intervals@[j].0
                        == (#[trigger] old(self).sub_intervals@[j0]).0),
            forall|cfg: Configuration, idx: u64|
                (interval_placed(cfg, idx, old(self).sub_intervals@) && cfg.spec_in_bound(
                    event.timestamp.time,
                ) && idx == cfg.spec_interval_of(event.timestamp.time) && sub_idx
                    == cfg.spec_sub_interval_of(event.timestamp.time)) ==> #[trigger] interval_placed(
                    cfg,
                    idx,
                    final(self).sub_intervals@,
                ),
    {
        let ghost s = old(self).sub_intervals@;
        let ghost k = event.key();
        let ghost m = event.model();
        let ghost the_event = event;
        let fp = event.fingerprint();
        let mut pos: usize = 0;
        while pos < self.sub_intervals.len() && self.sub_intervals[pos].0 < sub_idx
            invariant
                *self == *old(self),
                pos <= self.sub_intervals@.len(),
                forall|i: int| 0 <= i < pos ==> (#[trigger] self.sub_intervals@[i]).0 < sub_idx,
            decreases self.sub_intervals@.len() - pos,
        {
            pos = pos + 1;
        }
        let found = pos < self.sub_intervals.len() && self.sub_intervals[pos].0 == sub_idx;
        if found {
            let mut pair = self.sub_intervals.remove(pos);
            proof {
                assert(s[pos as int].1.contains_key(k) ==> old(self).contains_key(k));
            }
            pair.1.insert_unchecked(event);
            self.fingerprint = self.fingerprint.xor(fp);
            self.sub_intervals.insert(pos, pair);
            proof {
                let sn = self.sub_intervals@;
                assert(sn =~= s.update(pos as int, (s[pos as int].0, pair.1)));
                assert(pair == (s[pos as int].0, pair.1));
                lemma_interval_map_update_insert(
                    s,
                    pos as int,
                    (s[pos as int].0, pair.1),
                    k,
                    m,
                );
                assert(self.fingerprints() =~= old(self).fingerprints().update(
                    pos as int,
                    pair.1.fingerprint,
                ));
                lemma_xor_all_update(old(self).fingerprints(), pos as int, pair.1.fingerprint);
                lemma_xor_cancel_mid(
                    xor_all(old(self).fingerprints()),
                    s[pos as int].1.fingerprint,
                    event.fingerprint,
                );
                assert forall|i: int, j: int| 0 <= i < j < sn.len() implies (#[trigger] sn[i]).0 < (
                #[trigger] sn[j]).0 by {
                    assert(s[i].0 < s[j].0);
                }
                assert forall|i: int, j: int, k2: Option<Seq<u8>>|
                    #![trigger sn[i].1.contains_key(k2), sn[j].1.contains_key(k2)]
                    0 <= i < j < sn.len() implies !(sn[i].1.contains_key(k2)
                    && sn[j].1.contains_key(k2)) by {
                    if sn[i].1.contains_key(k2) && sn[j].1.contains_key(k2) {
                        if i == pos as int {
                            assert(s[i].1.contains_key(k2) || k2 == k);
                            assert(!s[j].1.contains_key(k2) || k2 == k);
                            assert(k2 == k ==> !s[j].1.contains_key(k2));
                            assert(false);
                        } else if j == pos as int {
                            assert(s[j].1.contains_key(k2) || k2 == k);
                            assert(false);
                        } else {
                            assert(false);
                        }
                    }
                }
                assert forall|k2: Option<Seq<u8>>| #[trigger]
                    self.contains_key(k2) implies (old(self).contains_key(k2) || k2 == k) by {
                    let i = choose|i: int|
                        0 <= i < sn.len() && (#[trigger] sn[i]).1.contains_key(k2);
                    if i != pos as int {
                        assert(s[i].1.contains_key(k2));
                    }
                }
                assert forall|k2: Option<Seq<u8>>|
                    (old(self).contains_key(k2) || k2 == k) implies #[trigger] self.contains_key(
                    k2,
                ) by {
                    if old(self).contains_key(k2) {
                        let i = choose|i: int|
                            0 <= i < s.len() && (#[trigger] s[i]).1.contains_key(k2);
                        assert(sn[i].1.contains_key(k2));
                    } else {
                        assert(sn[pos as int].1.contains_key(k2));
                    }
                }
                assert forall|j: int| 0 <= j < sn.len() implies ((#[trigger] sn[j]).0 == sub_idx
                    || exists|j0: int|
                    0 <= j0 < s.len() && sn[j].0 == (#[trigger] s[j0]).0) by {
                    assert(sn[j].0 == s[j].0);
                }
                assert forall|cfg: Configuration, idx: u64|
                    interval_placed(cfg, idx, s) && cfg.spec_in_bound(the_event.timestamp.time)
                        && idx == cfg.spec_interval_of(the_event.timestamp.time) && sub_idx
                        == cfg.spec_sub_interval_of(the_event.timestamp.time) implies #[trigger] interval_placed(
                    cfg,
                    idx,
                    sn,
                ) by {
                    assert forall|j: int| 0 <= j < sn.len() implies events_placed(
                        cfg,
                        idx,
                        (#[trigger] sn[j]).0,
                        sn[j].1.events@,
                    ) by {
                        assert(events_placed(cfg, idx, (#[trigger] s[j]).0, s[j].1.events@));
                        if j == pos as int {
                            assert(sn[j].0 == s[pos as int].0);
                            assert(s[pos as int].0 == sub_idx);
                            assert(events_placed(cfg, idx, s[pos as int].0, pair.1.events@));
                        } else {
                            assert(sn[j] == s[j]);
                        }
                    }
                }
            }
        } else {
            let mut sub = SubInterval::new();
            sub.insert_unchecked(event);
            self.fingerprint = self.fingerprint.xor(fp);
            self.sub_intervals.insert(pos, (sub_idx, sub));
            proof {
                let sn = self.sub_intervals@;
                assert(sn =~= s.insert(pos as int, (sub_idx, sub)));
                lemma_xor_zero(event.fingerprint);
                assert(sub.as_map() =~= Map::<Option<Seq<u8>>, EventModel>::empty().insert(k, m));
                lemma_interval_map_insert_pair(s, pos as int, (sub_idx, sub), k, m);
                assert(self.fingerprints() =~= old(self).fingerprints().insert(
                    pos as int,
                    sub.fingerprint,
                ));
                lemma_xor_all_insert(old(self).fingerprints(), pos as int, sub.fingerprint);
                assert forall|i: int, j: int| 0 <= i < j < sn.len() implies (#[trigger] sn[i]).0 < (
                #[trigger] sn[j]).0 by {
                    if j < pos as int {
                        assert(s[i].0 < s[j].0);
                    } else if i < pos as int && j == pos as int {
                        assert(s[i].0 < sub_idx);
                    } else if i < pos as int && j > pos as int {
                        assert(s[i].0 < sub_idx);
                        assert(pos < s.len() ==> sub_idx <= s[pos as int].0);
                        assert(s[pos as int].0 <= s[j - 1].0);
                    } else if i == pos as int {
                        assert(pos < s.len() ==> sub_idx <= s[pos as int].0);
                        assert(sub_idx != s[j - 1].0);
                        assert(s[pos as int].0 <= s[j - 1].0);
                    } else {
                        assert(s[i - 1].0 < s[j - 1].0);
                    }
                }
                assert forall|k2: Option<Seq<u8>>| #[trigger] sub.contains_key(k2) implies k2
                    == k by {}
                assert forall|i: int, j: int, k2: Option<Seq<u8>>|
                    #![trigger sn[i].1.contains_key(k2), sn[j].1.contains_key(k2)]
                    0 <= i < j < sn.len() implies !(sn[i].1.contains_key(k2)
                    && sn[j].1.contains_key(k2)) by {
                    if sn[i].1.contains_key(k2) && sn[j].1.contains_key(k2) {
                        let oi = if i < pos as int { i } else { i - 1 };
                        let oj = if j < pos as int { j } else { j - 1 };
                        if i == pos as int {
                            assert(k2 == k);
                            assert(s[oj].1.contains_key(k2));
                            assert(false);
                        } else if j == pos as int {
                            assert(k2 == k);
                            assert(s[oi].1.contains_key(k2));
                            assert(false);
                        } else {
                            assert(s[oi].1.contains_key(k2) && s[oj].1.contains_key(k2));
                            assert(false);
                        }
                    }
                }
                assert forall|k2: Option<Seq<u8>>| #[trigger]
                    self.contains_key(k2) implies (old(self).contains_key(k2) || k2 == k) by {
                    let i = choose|i: int|
                        0 <= i < sn.len() && (#[trigger] sn[i]).1.contains_key(k2);
                    if i != pos as int {
                        let oi = if i < pos as int { i } else { i - 1 };
                        assert(s[oi].1.contains_key(k2));
                    }
                }
                assert forall|k2: Option<Seq<u8>>|
                    (old(self).contains_key(k2) || k2 == k) implies #[trigger] self.contains_key(
                    k2,
                ) by {
                    if old(self).contains_key(k2) {
                        let i = choose|i: int|
                            0 <= i < s.len() && (#[trigger] s[i]).1.contains_key(k2);
                        let ni = if i < pos as int { i } else { i + 1 };
                        assert(sn[ni].1.contains_key(k2));
                    } else {
                        assert(sn[pos as int].1.contains_key(k2));
                    }
                }
                assert forall|j: int| 0 <= j < sn.len() implies ((#[trigger] sn[j]).0 == sub_idx
                    || exists|j0: int|
                    0 <= j0 < s.len() && sn[j].0 == (#[trigger] s[j0]).0) by {
                    if j != pos as int {
                        let oj = if j < pos as int { j } else { j - 1 };
                        assert(sn[j].0 == s[oj].0);
                    }
                }
                assert forall|cfg: Configuration, idx: u64|
                    interval_placed(cfg, idx, s) && cfg.spec_in_bound(the_event.timestamp.time)
                        && idx == cfg.spec_interval_of(the_event.timestamp.time) && sub_idx
                        == cfg.spec_sub_interval_of(the_event.timestamp.time) implies #[trigger] interval_placed(
                    cfg,
                    idx,
                    sn,
                ) by {
                    assert forall|j: int| 0 <= j < sn.len() implies events_placed(
                        cfg,
                        idx,
                        (#[trigger] sn[j]).0,
                        sn[j].1.events@,
                    ) by {
                        if j == pos as int {
                            assert(events_placed(cfg, idx, sub_idx, Seq::<Event>::empty()));
                            assert(events_placed(cfg, idx, sub_idx, sub.events@));
                        } else {
                            let oj = if j < pos as int { j } else { j - 1 };
                            assert(sn[j] == s[oj]);
                            assert(events_placed(cfg, idx, (#[trigger] s[oj]).0, s[oj].1.events@));
                        }
                    }
                }
            }
        }
    }

    /// If this interval tracks an event for `key` that is older than
    /// `timestamp`, removes it, scanning sub-intervals from newest to oldest;
    /// keeps it when it is at least as recent.
    pub fn if_newer_remove_older(&mut self, key: &Option<Vec<u8>>, timestamp: &Timestamp) -> (r:
        EventRemoval)
        requires
            old(self).wf(),
        ensures
            final(self).wf(),
            match r {
                EventRemoval::NotFound => {
                    &&& !old(self).contains_key(key.deep_view())
                    &&& *final(self) == *old(self)
                },
                EventRemoval::KeptNewer => {
                    &&& old(self).contains_key(key.deep_view())
                    &&& old(self).as_map().dom().contains(key.deep_view())
                    &&& timestamp.spec_le(old(self).as_map()[key.deep_view()].timestamp)
                    &&& *final(self) == *old(self)
                },
                EventRemoval::RemovedOlder(e) => {
                    &&& old(self).contains_key(key.deep_view())
                    &&& e.key() == key.deep_view()
                    &&& e.model() == old(self).as_map()[key.deep_view()]
                    &&& e.timestamp.spec_lt(*timestamp)
                    &&& final(self).as_map() == old(self).as_map().remove(key.deep_view())
                    &&& final(self).fingerprint == old(self).fingerprint.spec_xor(e.fingerprint)
                    &&& forall|k2: Option<Seq<u8>>| #[trigger]
                        final(self).contains_key(k2) <==> (old(self).contains_key(k2) && k2
                            != key.deep_view())
                    &&& final(self).sub_intervals@.len() == old(self).sub_intervals@.len()
                    &&& forall|j: int|
                        0 <= j < final(self).sub_intervals@.len() ==> (#[trigger] final(self).sub_intervals@[j]).0
                            == old(self).sub_intervals@[j].0
                    &&& forall|cfg: Configuration, idx: u64|
                        interval_placed(cfg, idx, old(self).sub_intervals@)
                            ==> #[trigger] interval_placed(cfg, idx, final(self).sub_intervals@)
                },
            },
    {
        let ghost s = old(self).sub_intervals@;
        let ghost k = key.deep_view();
        let mut j: usize = self.sub_intervals.len();
        while j > 0
            invariant
                old(self).wf(),
                s == old(self).sub_intervals@,
                k == key.deep_view(),
                *self == *old(self),
                j <= self.sub_intervals@.len(),
                forall|jj: int|
                    j <= jj < self.sub_intervals@.len() ==> !(#[trigger] self.sub_intervals@[jj]).1.contains_key(
                        key.deep_view(),
                    ),
            decreases j,
        {
            j = j - 1;
            let found = self.sub_intervals[j].1.lookup(key);
            let newer = match found {
                None => false,
                Some(e) => timestamp.le(&e.timestamp),
            };
            proof {
                if found is Some {
                    assert(s[j as int].1.contains_key(k));
                    assert forall|j2: int| 0 <= j2 < s.len() && j2 != j implies !(
                    #[trigger] s[j2]).1.contains_key(k) by {
                        if j2 < j {
                            assert(!(s[j2].1.contains_key(k) && s[j as int].1.contains_key(k)));
                        } else {
                            assert(!(s[j as int].1.contains_key(k) && s[j2].1.contains_key(k)));
                        }
                    }
                    lemma_interval_map_index(s, j as int, k);
                }
            }
            if newer {
                return EventRemoval::KeptNewer;
            }
            let hit = match found {
                None => false,
                Some(_) => true,
            };
            if hit {
                let mut pair = self.sub_intervals.remove(j);
                let removed = pair.1.remove(key);
                match removed {
                    Some(ev) => {
                        self.fingerprint = self.fingerprint.xor(ev.fingerprint());
                        self.sub_intervals.insert(j, pair);
                        proof {
                            let sn = self.sub_intervals@;
                            assert(sn =~= s.update(j as int, (s[j as int].0, pair.1)));
                            lemma_interval_map_update_remove(
                                s,
                                j as int,
                                (s[j as int].0, pair.1),
                                k,
                            );
                            assert(self.fingerprints() =~= old(self).fingerprints().update(
                                j as int,
                                pair.1.fingerprint,
                            ));
                            lemma_xor_all_update(
                                old(self).fingerprints(),
                                j as int,
                                pair.1.fingerprint,
                            );
                            lemma_xor_cancel_mid(
                                xor_all(old(self).fingerprints()),
                                s[j as int].1.fingerprint,
                                ev.fingerprint,
                            );
                            assert forall|i2: int, j2: int| 0 <= i2 < j2 < sn.len() implies (
                            #[trigger] sn[i2]).0 < (#[trigger] sn[j2]).0 by {
                                assert(s[i2].0 < s[j2].0);
                            }
                            assert forall|i2: int, j2: int, k2: Option<Seq<u8>>|
                                #![trigger sn[i2].1.contains_key(k2), sn[j2].1.contains_key(k2)]
                                0 <= i2 < j2 < sn.len() implies !(sn[i2].1.contains_key(k2)
                                && sn[j2].1.contains_key(k2)) by {
                                if sn[i2].1.contains_key(k2) && sn[j2].1.contains_key(k2) {
                                    assert(s[i2].1.contains_key(k2));
                                    assert(s[j2].1.contains_key(k2));
                                    assert(false);
                                }
                            }
                            assert forall|k2: Option<Seq<u8>>| #[trigger]
                                self.contains_key(k2) implies (old(self).contains_key(k2) && k2
                                != k) by {
                                let i2 = choose|i2: int|
                                    0 <= i2 < sn.len() && (#[trigger] sn[i2]).1.contains_key(k2);
                                assert(s[i2].1.contains_key(k2));
                                if k2 == k && i2 != j {
                                    assert(false);
                                }
                            }
                            assert forall|k2: Option<Seq<u8>>|
                                (old(self).contains_key(k2) && k2 != k) implies #[trigger] self.contains_key(
                                k2,
                            ) by {
                                let i2 = choose|i2: int|
                                    0 <= i2 < s.len() && (#[trigger] s[i2]).1.contains_key(k2);
                                assert(sn[i2].1.contains_key(k2));
                            }
                            assert forall|j2: int| 0 <= j2 < sn.len() implies (#[trigger] sn[j2]).0
                                == s[j2].0 by {}
                            assert forall|cfg: Configuration, idx: u64|
                                interval_placed(cfg, idx, s) implies #[trigger] interval_placed(
                                cfg,
                                idx,
                                sn,
                            ) by {
                                assert forall|j2: int| 0 <= j2 < sn.len() implies events_placed(
                                    cfg,
                                    idx,
                                    (#[trigger] sn[j2]).0,
                                    sn[j2].1.events@,
                                ) by {
                                    assert(events_placed(
                                        cfg,
                                        idx,
                                        (#[trigger] s[j2]).0,
                                        s[j2].1.events@,
                                    ));
                                    if j2 == j as int {
                                        assert(events_placed(cfg, idx, s[j2].0, pair.1.events@));
                                    } else {
                                        assert(sn[j2] == s[j2]);
                                    }
                                }
                            }
                        }
                        return EventRemoval::RemovedOlder(ev);
                    },
                    None => {
                        proof {
                            assert(false);
                        }
                        return EventRemoval::NotFound;
                    },
                }
            }
        }
        proof {
            if old(self).contains_key(k) {
                let i = choose|i: int| 0 <= i < s.len() && (#[trigger] s[i]).1.contains_key(k);
                assert(false);
            }
        }
        EventRemoval::NotFound
    }

    /// Returns the tracked event for `key`, scanning sub-intervals from
    /// newest to oldest.
    pub fn lookup(&self, key: &Option<Vec<u8>>) -> (r: Option<&Event>)
        requires
            self.wf(),
        ensures
            match r {
                Some(e) => {
                    &&& self.contains_key(key.deep_view())
                    &&& self.as_map().dom().contains(key.deep_view())
                    &&& e.key() == key.deep_view()
                    &&& e.model() == self.as_map()[key.deep_view()]
                },
                None => !self.contains_key(key.deep_view()),
            },
    {
        let ghost s = self.sub_intervals@;
        let ghost k = key.deep_view();
        let mut j: usize = self.sub_intervals.len();
        while j > 0
            invariant
                self.wf(),
                s == self.sub_intervals@,
                k == key.deep_view(),
                j <= self.sub_intervals@.len(),
                forall|jj: int|
                    j <= jj < self.sub_intervals@.len() ==> !(#[trigger] self.sub_intervals@[jj]).1.contains_key(
                        key.deep_view(),
                    ),
            decreases j,
        {
            j = j - 1;
            let found = self.sub_intervals[j].1.lookup(key);
            match found {
                Some(e) => {
                    proof {
                        assert(s[j as int].1.contains_key(k));
                        assert forall|j2: int| 0 <= j2 < s.len() && j2 != j implies !(
                        #[trigger] s[j2]).1.contains_key(k) by {
                            if j2 < j {
                                assert(!(s[j2].1.contains_key(k) && s[j as int].1.contains_key(k)));
                            } else {
                                assert(!(s[j as int].1.contains_key(k) && s[j2].1.contains_key(k)));
                            }
                        }
                        lemma_interval_map_index(s, j as int, k);
                    }
                    return Some(e);
                },
                None => (),
            }
        }
        None
    }

    /// A snapshot of the fingerprint of every non-empty sub-interval, keyed
    /// and ordered by sub-interval index.
    pub fn sub_intervals_fingerprints(&self) -> (r: Vec<(u64, Fingerprint)>)
        requires
            self.wf(),
        ensures
            pairs_map(r@) == self.spec_sub_fingerprints(),
            strictly_increasing(r@),
            forall|a: int|
                0 <= a < r@.len() ==> exists|b: int|
                    0 <= b < self.sub_intervals@.len() && (#[trigger] r@[a]).0
                        == self.sub_intervals@[b].0,
    {
        let ghost s = self.sub_intervals@;
        let mut out: Vec<(u64, Fingerprint)> = Vec::new();
        let mut i: usize = 0;
        while i < self.sub_intervals.len()
            invariant
                self.wf(),
                s == self.sub_intervals@,
                i <= self.sub_intervals@.len(),
                pairs_map(out@) == sub_fp_map(self.sub_intervals@.take(i as int)),
                strictly_increasing(out@),
                forall|a: int|
                    0 <= a < out@.len() ==> exists|b: int|
                        0 <= b < i && (#[trigger] out@[a]).0 == self.sub_intervals@[b].0,
            decreases self.sub_intervals@.len() - i,
        {
            let idx = self.sub_intervals[i].0;
            let f = self.sub_intervals[i].1.fingerprint;
            let ghost out_before = out@;
            if f.value != 0 {
                out.push((idx, f));
                proof {
                    assert(out@.drop_last() =~= out_before);
                    assert forall|a: int, b: int| 0 <= a < b < out@.len() implies (
                    #[trigger] out@[a]).0 < (#[trigger] out@[b]).0 by {
                        if b == out@.len() - 1 {
                            let c = choose|c: int|
                                0 <= c < i && (#[trigger] out_before[a]).0 == s[c].0;
                            assert(s[c].0 < s[i as int].0);
                        }
                    }
                    assert forall|a: int| 0 <= a < out@.len() implies exists|b: int|
                        0 <= b < i + 1 && (#[trigger] out@[a]).0 == s[b].0 by {
                        if a < out@.len() - 1 {
                            let c = choose|c: int|
                                0 <= c < i && (#[trigger] out_before[a]).0 == s[c].0;
                            assert(out@[a].0 == s[c].0);
                        } else {
                            assert(out@[a].0 == s[i as int].0);
                        }
                    }
                }
            }
            i = i + 1;
            proof {
                assert(s.take(i as int).drop_last() =~= s.take(i as int - 1));
                assert(s.take(i as int).last() == s[i as int - 1]);
            }
        }
        proof {
            assert(s.take(s.len() as int) =~= s);
        }
        out
    }

    /// The cached XOR of the fingerprints of all tracked events.
    pub fn fingerprint(&self) -> (r: Fingerprint)
        ensures
            r == self.fingerprint,
    {
        self.fingerprint
    }
}

} // verus!
