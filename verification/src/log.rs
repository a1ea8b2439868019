use vstd::prelude::*;

use crate::classification::{
    interval_placed, lemma_strictly_increasing_bounded, pairs_map, strictly_increasing,
    EventRemoval, Interval,
};
use crate::digest::{eras_from, hot_pairs_map, Digest, DigestModel};
use crate::configuration::{Configuration, ReplicaConfig};
use crate::error::ReplicationError;
use crate::event::{clone_event, Event, EventInsertion, EventModel};
use crate::filter::{bloom_check, bloom_new, bloom_set, filter_keys};
use crate::fingerprint::Fingerprint;

verus! {

/// How many items the Bloom filter is sized for: two to the twenty-third.
pub const BLOOM_CAPACITY: usize = 8_388_608;

/// The bitmap size, in bytes, that gives the filter a false-positive rate of
/// one percent at [`BLOOM_CAPACITY`] items: the nearest whole number of bytes
/// above `capacity * ln(1/100) / (-8 * ln(2)^2)`.
pub const BLOOM_BITMAP_BYTES: usize = 10_050_663;

/// What a storage backend keeps: only the latest value per key, or the
/// whole history.
#[derive(Clone, Copy, Debug, PartialEq, Eq, Structural)]
pub enum History {
    Latest,
    All,
}

/// The log of latest values can only replicate a storage that itself keeps
/// only the latest values; attaching to a history-keeping storage fails with
/// `StorageIncompatible`.
pub fn check_storage_capability(history: History) -> (r: Result<(), ReplicationError>)
    ensures
        r == (if history == History::Latest {
            Ok::<(), ReplicationError>(())
        } else {
            Err::<(), ReplicationError>(ReplicationError::StorageIncompatible)
        }),
{
    match history {
        History::Latest => Ok(()),
        History::All => Err(ReplicationError::StorageIncompatible),
    }
}

/// The key-to-event map described by a sequence of intervals.
pub open spec fn log_map(s: Seq<(u64, Interval)>) -> Map<Option<Seq<u8>>, EventModel>
    decreases s.len(),
{
    if s.len() == 0 {
        Map::empty()
    } else {
        log_map(s.drop_last()).union_prefer_right(s.last().1.as_map())
    }
}

/// A key is in the combined map exactly when some interval tracks it.
pub proof fn lemma_log_map_dom(s: Seq<(u64, Interval)>, k: Option<Seq<u8>>)
    ensures
        log_map(s).dom().contains(k) <==> exists|i: int|
            0 <= i < s.len() && (#[trigger] s[i]).1.contains_key(k),
    decreases s.len(),
{
    if s.len() > 0 {
        lemma_log_map_dom(s.drop_last(), k);
        crate::classification::lemma_interval_map_dom(s.last().1.sub_intervals@, k);
        if log_map(s).dom().contains(k) {
            if s.last().1.as_map().dom().contains(k) {
                assert(s[s.len() - 1].1.contains_key(k));
            } else {
                let i = choose|i: int|
                    0 <= i < s.drop_last().len() && (#[trigger] s.drop_last()[i]).1.contains_key(k);
                assert(s[i].1.contains_key(k));
            }
        }
        if exists|i: int| 0 <= i < s.len() && (#[trigger] s[i]).1.contains_key(k) {
            let i = choose|i: int| 0 <= i < s.len() && (#[trigger] s[i]).1.contains_key(k);
            if i < s.len() - 1 {
                assert(s.drop_last()[i].1.contains_key(k));
            }
        }
    }
}

/// When only interval `i` tracks `k`, the combined map reads `k` there.
pub proof fn lemma_log_map_index(s: Seq<(u64, Interval)>, i: int, k: Option<Seq<u8>>)
    requires
        0 <= i < s.len(),
        s[i].1.contains_key(k),
        forall|j: int| 0 <= j < s.len() && j != i ==> !(#[trigger] s[j]).1.contains_key(k),
    ensures
        log_map(s).dom().contains(k),
        log_map(s)[k] == s[i].1.as_map()[k],
    decreases s.len(),
{
    crate::classification::lemma_interval_map_dom(s.last().1.sub_intervals@, k);
    if i == s.len() - 1 {
    } else {
        assert(s.drop_last()[i] == s[i]);
        assert forall|j: int| 0 <= j < s.drop_last().len() && j != i implies !(#[trigger] s.drop_last()[
            j]).1.contains_key(k) by {
            assert(s.drop_last()[j] == s[j]);
        }
        lemma_log_map_index(s.drop_last(), i, k);
        assert(!s[s.len() - 1].1.contains_key(k));
    }
}

/// Replacing interval `i` by one whose map lost `k` removes `k` from the
/// combined map, provided no other interval tracks `k`.
pub proof fn lemma_log_map_update_remove(
    s: Seq<(u64, Interval)>,
    i: int,
    p: (u64, Interval),
    k: Option<Seq<u8>>,
)
    requires
        0 <= i < s.len(),
        p.1.as_map() == s[i].1.as_map().remove(k),
        forall|j: int| 0 <= j < s.len() && j != i ==> !(#[trigger] s[j]).1.contains_key(k),
    ensures
        log_map(s.update(i, p)) =~= log_map(s).remove(k),
    decreases s.len(),
{
    crate::classification::lemma_interval_map_dom(s.last().1.sub_intervals@, k);
    if i == s.len() - 1 {
        assert(s.update(i, p).drop_last() =~= s.drop_last());
        assert(s.update(i, p).last() == p);
        lemma_log_map_dom(s.drop_last(), k);
        assert forall|j: int| 0 <= j < s.drop_last().len() implies !(#[trigger] s.drop_last()[j]).1.contains_key(
            k,
        ) by {
            assert(s.drop_last()[j] == s[j]);
        }
        assert(!log_map(s.drop_last()).dom().contains(k));
        assert(log_map(s.update(i, p)) =~= log_map(s).remove(k));
    } else {
        assert(s.update(i, p).drop_last() =~= s.drop_last().update(i, p));
        assert(s.update(i, p).last() == s.last());
        assert(s.drop_last()[i] == s[i]);
        assert forall|j: int| 0 <= j < s.drop_last().len() && j != i implies !(#[trigger] s.drop_last()[
            j]).1.contains_key(k) by {
            assert(s.drop_last()[j] == s[j]);
        }
        lemma_log_map_update_remove(s.drop_last(), i, p, k);
        assert(!s[s.len() - 1].1.contains_key(k));
        assert(!s.last().1.as_map().dom().contains(k));
        assert(log_map(s.update(i, p)) =~= log_map(s).remove(k));
    }
}

/// Replacing interval `i` by one whose map gained `k` inserts `k` into the
/// combined map, provided no interval tracked `k` before.
pub proof fn lemma_log_map_update_insert(
    s: Seq<(u64, Interval)>,
    i: int,
    p: (u64, Interval),
    k: Option<Seq<u8>>,
    m: EventModel,
)
    requires
        0 <= i < s.len(),
        p.1.as_map() == s[i].1.as_map().insert(k, m),
        forall|j: int| 0 <= j < s.len() ==> !(#[trigger] s[j]).1.contains_key(k),
    ensures
        log_map(s.update(i, p)) =~= log_map(s).insert(k, m),
    decreases s.len(),
{
    crate::classification::lemma_interval_map_dom(s.last().1.sub_intervals@, k);
    if i == s.len() - 1 {
        assert(s.update(i, p).drop_last() =~= s.drop_last());
        assert(s.update(i, p).last() == p);
        assert(log_map(s.update(i, p)) =~= log_map(s).insert(k, m));
    } else {
        assert(s.update(i, p).drop_last() =~= s.drop_last().update(i, p));
        assert(s.update(i, p).last() == s.last());
        assert(s.drop_last()[i] == s[i]);
        assert forall|j: int| 0 <= j < s.drop_last().len() implies !(#[trigger] s.drop_last()[j]).1.contains_key(
            k,
        ) by {
            assert(s.drop_last()[j] == s[j]);
        }
        lemma_log_map_update_insert(s.drop_last(), i, p, k, m);
        assert(!s[s.len() - 1].1.contains_key(k));
        assert(!s.last().1.as_map().dom().contains(k));
        assert(log_map(s.update(i, p)) =~= log_map(s).insert(k, m));
    }
}

/// Inserting an interval that tracks only `k` inserts `k` into the combined
/// map, provided no interval tracked `k` before.
pub proof fn lemma_log_map_insert_pair(
    s: Seq<(u64, Interval)>,
    i: int,
    p: (u64, Interval),
    k: Option<Seq<u8>>,
    m: EventModel,
)
    requires
        0 <= i <= s.len(),
        p.1.as_map() == Map::<Option<Seq<u8>>, EventModel>::empty().insert(k, m),
        forall|j: int| 0 <= j < s.len() ==> !(#[trigger] s[j]).1.contains_key(k),
    ensures
        log_map(s.insert(i, p)) =~= log_map(s).insert(k, m),
    decreases s.len(),
{
    if i == s.len() {
        assert(s.insert(i, p).drop_last() =~= s);
        assert(s.insert(i, p).last() == p);
        assert(log_map(s.insert(i, p)) =~= log_map(s).insert(k, m));
    } else {
        crate::classification::lemma_interval_map_dom(s.last().1.sub_intervals@, k);
        assert(s.insert(i, p).drop_last() =~= s.drop_last().insert(i, p));
        assert(s.insert(i, p).last() == s.last());
        assert forall|j: int| 0 <= j < s.drop_last().len() implies !(#[trigger] s.drop_last()[j]).1.contains_key(
            k,
        ) by {
            assert(s.drop_last()[j] == s[j]);
        }
        lemma_log_map_insert_pair(s.drop_last(), i, p, k, m);
        assert(!s[s.len() - 1].1.contains_key(k));
        assert(!s.last().1.as_map().dom().contains(k));
        assert(log_map(s.insert(i, p)) =~= log_map(s).insert(k, m));
    }
}

/// An event is stale against a map: the map already holds, for its key, an
/// event with a timestamp at least as recent.
pub open spec fn stale(m: Map<Option<Seq<u8>>, EventModel>, e: EventModel) -> bool {
    m.dom().contains(e.key) && e.timestamp.spec_le(m[e.key].timestamp)
}

/// Last-writer-wins: a stale event changes nothing; any other event becomes
/// the tracked one for its key.
pub open spec fn lww_apply(m: Map<Option<Seq<u8>>, EventModel>, e: EventModel) -> Map<
    Option<Seq<u8>>,
    EventModel,
> {
    if stale(m, e) {
        m
    } else {
        m.insert(e.key, e)
    }
}

/// What an unclassifiable event leaves behind: it is dropped, but an older
/// tracked event with the same key has already been removed by the scan.
pub open spec fn discard_effect(m: Map<Option<Seq<u8>>, EventModel>, e: EventModel) -> Map<
    Option<Seq<u8>>,
    EventModel,
> {
    if m.dom().contains(e.key) && m[e.key].timestamp.spec_lt(e.timestamp) {
        m.remove(e.key)
    } else {
        m
    }
}

/// The full effect of offering one event to the log.
pub open spec fn apply_event(
    cfg: Configuration,
    m: Map<Option<Seq<u8>>, EventModel>,
    e: EventModel,
) -> Map<Option<Seq<u8>>, EventModel> {
    if cfg.spec_in_bound(e.timestamp.time) {
        lww_apply(m, e)
    } else {
        discard_effect(m, e)
    }
}

/// The effect of offering a whole sequence of events, in order.
pub open spec fn apply_events(
    cfg: Configuration,
    m: Map<Option<Seq<u8>>, EventModel>,
    s: Seq<EventModel>,
) -> Map<Option<Seq<u8>>, EventModel>
    decreases s.len(),
{
    if s.len() == 0 {
        m
    } else {
        apply_event(cfg, apply_events(cfg, m, s.drop_last()), s.last())
    }
}

/// The replication log of latest values: for every key expression, the most
/// recent publication, grouped into intervals and sub-intervals by timestamp,
/// with a Bloom filter over the keys to cut short most lookups of unknown
/// keys.
pub struct LogLatest {
    pub configuration: Configuration,
    pub intervals: Vec<(u64, Interval)>,
    pub bloom_filter_event: bloomfilter::Bloom<Option<Vec<u8>>>,
}

impl LogLatest {
    /// Intervals are sorted by index and well formed, no key is tracked
    /// twice, every tracked key is reported by the Bloom filter — the filter
    /// never answers falsely in the negative — and every stored event sits
    /// in the interval and sub-interval that classify its timestamp, with
    /// sub-interval indices below the configured count.
    pub open spec fn wf(self) -> bool {
        &&& self.configuration.wf()
        &&& strictly_increasing(self.intervals@)
        &&& forall|i: int| 0 <= i < self.intervals@.len() ==> (#[trigger] self.intervals@[i]).1.wf()
        &&& forall|i: int, j: int, k: Option<Seq<u8>>|
            #![trigger self.intervals@[i].1.contains_key(k), self.intervals@[j].1.contains_key(k)]
            0 <= i < j < self.intervals@.len() ==> !(self.intervals@[i].1.contains_key(k)
                && self.intervals@[j].1.contains_key(k))
        &&& forall|k: Option<Seq<u8>>| #[trigger]
            self.contains_key(k) ==> filter_keys(self.bloom_filter_event).contains(k)
        &&& forall|i: int|
            0 <= i < self.intervals@.len() ==> interval_placed(
                self.configuration,
                (#[trigger] self.intervals@[i]).0,
                self.intervals@[i].1.sub_intervals@,
            )
        &&& forall|i: int, j: int|
            0 <= i < self.intervals@.len() && 0 <= j < self.intervals@[i].1.sub_intervals@.len()
                ==> (#[trigger] self.intervals@[i].1.sub_intervals@[j]).0
                < self.configuration.replica_config.sub_intervals
    }

    /// The key-to-event map of the whole log.
    pub open spec fn as_map(self) -> Map<Option<Seq<u8>>, EventModel> {
        log_map(self.intervals@)
    }

    pub open spec fn contains_key(self, k: Option<Seq<u8>>) -> bool {
        exists|i: int| 0 <= i < self.intervals@.len() && (#[trigger] self.intervals@[i]).1.contains_key(
            k,
        )
    }

    /// Creates an empty log for the given storage and replication parameters.
    pub fn new(
        storage_key_expr: Vec<u8>,
        prefix: Option<Vec<u8>>,
        replica_config: ReplicaConfig,
    ) -> (r: LogLatest)
        requires
            replica_config.wf(),
        ensures
            r.wf(),
            r.as_map() == Map::<Option<Seq<u8>>, EventModel>::empty(),
            r.intervals@ == Seq::<(u64, Interval)>::empty(),
            r.configuration.storage_key_expr == storage_key_expr,
            r.configuration.prefix == prefix,
            r.configuration.replica_config == replica_config,
            filter_keys(r.bloom_filter_event) == Set::<Option<Seq<u8>>>::empty(),
    {
        LogLatest {
            configuration: Configuration::new(storage_key_expr, prefix, replica_config),
            intervals: Vec::new(),
            bloom_filter_event: bloom_new(BLOOM_BITMAP_BYTES, BLOOM_CAPACITY),
        }
    }

    /// Returns the configuration of this log.
    pub fn configuration(&self) -> (r: &Configuration)
        ensures
            r == &self.configuration,
    {
        &self.configuration
    }

    /// Returns the tracked event for `key`, if any: the Bloom filter answers
    /// first, and only on a hit are the intervals scanned, newest first.
    pub fn lookup(&self, key: &Option<Vec<u8>>) -> (r: Option<&Event>)
        requires
            self.wf(),
        ensures
            match r {
                Some(e) => {
                    &&& self.as_map().dom().contains(key.deep_view())
                    &&& e.key() == key.deep_view()
                    &&& e.model() == self.as_map()[key.deep_view()]
                },
                None => !self.as_map().dom().contains(key.deep_view()),
            },
    {
        let ghost s = self.intervals@;
        let ghost k = key.deep_view();
        proof {
            lemma_log_map_dom(s, k);
        }
        if !bloom_check(&self.bloom_filter_event, key) {
            proof {
                if self.contains_key(k) {
                    assert(filter_keys(self.bloom_filter_event).contains(k));
                    assert(false);
                }
            }
            return None;
        }
        let mut j: usize = self.intervals.len();
        while j > 0
            invariant
                self.wf(),
                s == self.intervals@,
                k == key.deep_view(),
                j <= self.intervals@.len(),
                forall|jj: int|
                    j <= jj < self.intervals@.len() ==> !(#[trigger] self.intervals@[jj]).1.contains_key(
                        key.deep_view(),
                    ),
            decreases j,
        {
            j = j - 1;
            let found = self.intervals[j].1.lookup(key);
            match found {
                Some(e) => {
                    proof {
                        assert(s[j as int].1.contains_key(k));
                        assert forall|j2: int| 0 <= j2 < s.len() && j2 != j implies !(
                        #[trigger] s[j2]).1.contains_key(k) by {
                            if j2 < j {
                                assert(!(s[j2].1.contains_key(k) && s[j as int].1.contains_key(k)));
                            } else {
                                assert(!(s[j as int].1.contains_key(k) && s[j2].1.contains_key(k)));
                            }
                        }
                        lemma_log_map_index(s, j as int, k);
                    }
                    return Some(e);
                },
                None => (),
            }
        }
        None
    }

    /// Scans the intervals, newest first, for an event with the same key:
    /// removes it when it is older than `timestamp`, keeps everything when it
    /// is at least as recent.
    fn remove_older(&mut self, key: &Option<Vec<u8>>, timestamp: &crate::event::Timestamp) -> (r:
        EventRemoval)
        requires
            old(self).wf(),
        ensures
            final(self).wf(),
            final(self).configuration == old(self).configuration,
            final(self).bloom_filter_event == old(self).bloom_filter_event,
            match r {
                EventRemoval::NotFound => {
                    &&& !old(self).contains_key(key.deep_view())
                    &&& *final(self) == *old(self)
                },
                EventRemoval::KeptNewer => {
                    &&& old(self).as_map().dom().contains(key.deep_view())
                    &&& timestamp.spec_le(old(self).as_map()[key.deep_view()].timestamp)
                    &&& *final(self) == *old(self)
                },
                EventRemoval::RemovedOlder(e) => {
                    &&& old(self).as_map().dom().contains(key.deep_view())
                    &&& e.key() == key.deep_view()
                    &&& e.model() == old(self).as_map()[key.deep_view()]
                    &&& e.timestamp.spec_lt(*timestamp)
                    &&& final(self).as_map() == old(self).as_map().remove(key.deep_view())
                    &&& forall|k2: Option<Seq<u8>>| #[trigger]
                        final(self).contains_key(k2) <==> (old(self).contains_key(k2) && k2
                            != key.deep_view())
                },
            },
    {
        let ghost s = old(self).intervals@;
        let ghost k = key.deep_view();
        let mut j: usize = self.intervals.len();
        while j > 0
            invariant
                old(self).wf(),
                s == old(self).intervals@,
                k == key.deep_view(),
                *self == *old(self),
                j <= self.intervals@.len(),
                forall|jj: int|
                    j <= jj < self.intervals@.len() ==> !(#[trigger] self.intervals@[jj]).1.contains_key(
                        key.deep_view(),
                    ),
            decreases j,
        {
            j = j - 1;
            let found = self.intervals[j].1.lookup(key);
            let newer = match found {
                None => false,
                Some(e) => timestamp.le(&e.timestamp),
            };
            proof {
                if found is Some {
                    assert(s[j as int].1.contains_key(k));
                    assert forall|j2: int| 0 <= j2 < s.len() && j2 != j implies !(
                    #[trigger] s[j2]).1.contains_key(k) by {
                        if j2 < j {
                            assert(!(s[j2].1.contains_key(k) && s[j as int].1.contains_key(k)));
                        } else {
                            assert(!(s[j as int].1.contains_key(k) && s[j2].1.contains_key(k)));
                        }
                    }
                    lemma_log_map_index(s, j as int, k);
                }
            }
            if newer {
                return EventRemoval::KeptNewer;
            }
            let hit = match found {
                None => false,
                Some(_) => true,
            };
            if hit {
                let mut pair = self.intervals.remove(j);
                let outcome = pair.1.if_newer_remove_older(key, timestamp);
                match outcome {
                    EventRemoval::RemovedOlder(ev) => {
                        self.intervals.insert(j, pair);
                        proof {
                            let sn = self.intervals@;
                            assert(sn =~= s.update(j as int, (s[j as int].0, pair.1)));
                            lemma_log_map_update_remove(s, j as int, (s[j as int].0, pair.1), k);
                            assert forall|i2: int, j2: int| 0 <= i2 < j2 < sn.len() implies (
                            #[trigger] sn[i2]).0 < (#[trigger] sn[j2]).0 by {
                                assert(s[i2].0 < s[j2].0);
                            }
                            assert forall|i2: int, j2: int, k2: Option<Seq<u8>>|
                                #![trigger sn[i2].1.contains_key(k2), sn[j2].1.contains_key(k2)]
                                0 <= i2 < j2 < sn.len() implies !(sn[i2].1.contains_key(k2)
                                && sn[j2].1.contains_key(k2)) by {
                                if sn[i2].1.contains_key(k2) && sn[j2].1.contains_key(k2) {
                                    assert(s[i2].1.contains_key(k2));
                                    assert(s[j2].1.contains_key(k2));
                                    assert(false);
                                }
                            }
                            assert forall|k2: Option<Seq<u8>>| #[trigger]
                                self.contains_key(k2) implies (old(self).contains_key(k2) && k2
                                != k) by {
                                let i2 = choose|i2: int|
                                    0 <= i2 < sn.len() && (#[trigger] sn[i2]).1.contains_key(k2);
                                assert(s[i2].1.contains_key(k2));
                                if k2 == k && i2 != j {
                                    assert(false);
                                }
                            }
                            assert forall|k2: Option<Seq<u8>>|
                                (old(self).contains_key(k2) && k2 != k) implies #[trigger] self.contains_key(
                                k2,
                            ) by {
                                let i2 = choose|i2: int|
                                    0 <= i2 < s.len() && (#[trigger] s[i2]).1.contains_key(k2);
                                assert(sn[i2].1.contains_key(k2));
                            }
                            assert forall|k2: Option<Seq<u8>>| #[trigger]
                                self.contains_key(k2) implies filter_keys(
                                self.bloom_filter_event,
                            ).contains(k2) by {
                                assert(old(self).contains_key(k2));
                            }
                        }
                        return EventRemoval::RemovedOlder(ev);
                    },
                    EventRemoval::KeptNewer => {
                        proof {
                            assert(false);
                        }
                        self.intervals.insert(j, pair);
                        return EventRemoval::KeptNewer;
                    },
                    EventRemoval::NotFound => {
                        proof {
                            assert(false);
                        }
                        self.intervals.insert(j, pair);
                        return EventRemoval::NotFound;
                    },
                }
            }
        }
        proof {
            if old(self).contains_key(k) {
                let i = choose|i: int| 0 <= i < s.len() && (#[trigger] s[i]).1.contains_key(k);
                assert(false);
            }
        }
        EventRemoval::NotFound
    }

    /// Inserts an event, already classified to `(interval_idx, sub_idx)` and
    /// known to be untracked, into its interval, creating it if absent.
    fn insert_classified(&mut self, interval_idx: u64, sub_idx: u64, event: Event)
        requires
            old(self).wf(),
            !old(self).contains_key(event.key()),
            filter_keys(old(self).bloom_filter_event).contains(event.key()),
            old(self).configuration.spec_in_bound(event.timestamp.time),
            interval_idx == old(self).configuration.spec_interval_of(event.timestamp.time),
            sub_idx == old(self).configuration.spec_sub_interval_of(event.timestamp.time),
            sub_idx < old(self).configuration.replica_config.sub_intervals,
        ensures
            final(self).wf(),
            final(self).configuration == old(self).configuration,
            final(self).bloom_filter_event == old(self).bloom_filter_event,
            final(self).as_map() == old(self).as_map().insert(event.key(), event.model()),
    {
        let ghost s = old(self).intervals@;
        let ghost k = event.key();
        let ghost m = event.model();
        let mut pos: usize = 0;
        while pos < self.intervals.len() && self.intervals[pos].0 < interval_idx
            invariant
                *self == *old(self),
                pos <= self.intervals@.len(),
                forall|i: int| 0 <= i < pos ==> (#[trigger] self.intervals@[i]).0 < interval_idx,
            decreases self.intervals@.len() - pos,
        {
            pos = pos + 1;
        }
        let found = pos < self.intervals.len() && self.intervals[pos].0 == interval_idx;
        if found {
            let mut pair = self.intervals.remove(pos);
            proof {
                assert(s[pos as int].1.contains_key(k) ==> old(self).contains_key(k));
            }
            pair.1.insert_unchecked(sub_idx, event);
            self.intervals.insert(pos, pair);
            proof {
                let sn = self.intervals@;
                assert(sn =~= s.update(pos as int, (s[pos as int].0, pair.1)));
                assert(pair == (s[pos as int].0, pair.1));
                lemma_log_map_update_insert(s, pos as int, (s[pos as int].0, pair.1), k, m);
                assert forall|i: int, j: int| 0 <= i < j < sn.len() implies (#[trigger] sn[i]).0 < (
                #[trigger] sn[j]).0 by {
                    assert(s[i].0 < s[j].0);
                }
                assert forall|i: int, j: int, k2: Option<Seq<u8>>|
                    #![trigger sn[i].1.contains_key(k2), sn[j].1.contains_key(k2)]
                    0 <= i < j < sn.len() implies !(sn[i].1.contains_key(k2)
                    && sn[j].1.contains_key(k2)) by {
                    if sn[i].1.contains_key(k2) && sn[j].1.contains_key(k2) {
                        if i == pos as int {
                            assert(s[i].1.contains_key(k2) || k2 == k);
                            assert(false);
                        } else if j == pos as int {
                            assert(s[j].1.contains_key(k2) || k2 == k);
                            assert(false);
                        } else {
                            assert(false);
                        }
                    }
                }
                assert forall|k2: Option<Seq<u8>>| #[trigger]
                    self.contains_key(k2) implies filter_keys(self.bloom_filter_event).contains(
                    k2,
                ) by {
                    let i = choose|i: int|
                        0 <= i < sn.len() && (#[trigger] sn[i]).1.contains_key(k2);
                    if i != pos as int {
                        assert(s[i].1.contains_key(k2));
                        assert(old(self).contains_key(k2));
                    } else {
                        if k2 != k {
                            assert(s[i].1.contains_key(k2));
                            assert(old(self).contains_key(k2));
                        }
                    }
                }
                let cfg = self.configuration;
                assert forall|i: int| 0 <= i < sn.len() implies interval_placed(
                    cfg,
                    (#[trigger] sn[i]).0,
                    sn[i].1.sub_intervals@,
                ) by {
                    assert(interval_placed(cfg, (#[trigger] s[i]).0, s[i].1.sub_intervals@));
                    if i == pos as int {
                        assert(s[pos as int].0 == interval_idx);
                        assert(interval_placed(cfg, interval_idx, pair.1.sub_intervals@));
                    } else {
                        assert(sn[i] == s[i]);
                    }
                }
                assert forall|i: int, j: int|
                    0 <= i < sn.len() && 0 <= j < sn[i].1.sub_intervals@.len() implies (
                #[trigger] sn[i].1.sub_intervals@[j]).0 < cfg.replica_config.sub_intervals by {
                    if i == pos as int {
                        let key2 = sn[i].1.sub_intervals@[j].0;
                        if key2 != sub_idx {
                            let j0 = choose|j0: int|
                                0 <= j0 < s[pos as int].1.sub_intervals@.len() && sn[i].1.sub_intervals@[j].0
                                    == (#[trigger] s[pos as int].1.sub_intervals@[j0]).0;
                            assert((s[pos as int].1.sub_intervals@[j0]).0
                                < cfg.replica_config.sub_intervals);
                        }
                    } else {
                        assert(sn[i] == s[i]);
                        assert((s[i].1.sub_intervals@[j]).0 < cfg.replica_config.sub_intervals);
                    }
                }
            }
        } else {
            let mut interval = Interval::new();
            interval.insert_unchecked(sub_idx, event);
            self.intervals.insert(pos, (interval_idx, interval));
            proof {
                let sn = self.intervals@;
                assert(sn =~= s.insert(pos as int, (interval_idx, interval)));
                assert(interval.as_map() =~= Map::<Option<Seq<u8>>, EventModel>::empty().insert(
                    k,
                    m,
                ));
                lemma_log_map_insert_pair(s, pos as int, (interval_idx, interval), k, m);
                assert forall|i: int, j: int| 0 <= i < j < sn.len() implies (#[trigger] sn[i]).0 < (
                #[trigger] sn[j]).0 by {
                    if j < pos as int {
                        assert(s[i].0 < s[j].0);
                    } else if i < pos as int && j == pos as int {
                        assert(s[i].0 < interval_idx);
                    } else if i < pos as int && j > pos as int {
                        assert(s[i].0 < interval_idx);
                        assert(pos < s.len() ==> interval_idx <= s[pos as int].0);
                        assert(s[pos as int].0 <= s[j - 1].0);
                    } else if i == pos as int {
                        assert(pos < s.len() ==> interval_idx <= s[pos as int].0);
                        assert(interval_idx != s[j - 1].0);
                        assert(s[pos as int].0 <= s[j - 1].0);
                    } else {
                        assert(s[i - 1].0 < s[j - 1].0);
                    }
                }
                assert forall|k2: Option<Seq<u8>>| #[trigger] interval.contains_key(k2) implies k2
                    == k by {}
                assert forall|i: int, j: int, k2: Option<Seq<u8>>|
                    #![trigger sn[i].1.contains_key(k2), sn[j].1.contains_key(k2)]
                    0 <= i < j < sn.len() implies !(sn[i].1.contains_key(k2)
                    && sn[j].1.contains_key(k2)) by {
                    if sn[i].1.contains_key(k2) && sn[j].1.contains_key(k2) {
                        let oi = if i < pos as int { i } else { i - 1 };
                        let oj = if j < pos as int { j } else { j - 1 };
                        if i == pos as int {
                            assert(k2 == k);
                            assert(s[oj].1.contains_key(k2));
                            assert(false);
                        } else if j == pos as int {
                            assert(k2 == k);
                            assert(s[oi].1.contains_key(k2));
                            assert(false);
                        } else {
                            assert(s[oi].1.contains_key(k2) && s[oj].1.contains_key(k2));
                            assert(false);
                        }
                    }
                }
                assert forall|k2: Option<Seq<u8>>| #[trigger]
                    self.contains_key(k2) implies filter_keys(self.bloom_filter_event).contains(
                    k2,
                ) by {
                    let i = choose|i: int|
                        0 <= i < sn.len() && (#[trigger] sn[i]).1.contains_key(k2);
                    if i != pos as int {
                        let oi = if i < pos as int { i } else { i - 1 };
                        assert(s[oi].1.contains_key(k2));
                        assert(old(self).contains_key(k2));
                    }
                }
                let cfg = self.configuration;
                assert(interval_placed(cfg, interval_idx, Seq::<(u64, crate::classification::SubInterval)>::empty()));
                assert forall|i: int| 0 <= i < sn.len() implies interval_placed(
                    cfg,
                    (#[trigger] sn[i]).0,
                    sn[i].1.sub_intervals@,
                ) by {
                    if i == pos as int {
                        assert(interval_placed(cfg, interval_idx, interval.sub_intervals@));
                    } else {
                        let oi = if i < pos as int { i } else { i - 1 };
                        assert(sn[i] == s[oi]);
                        assert(interval_placed(cfg, (#[trigger] s[oi]).0, s[oi].1.sub_intervals@));
                    }
                }
                assert forall|i: int, j: int|
                    0 <= i < sn.len() && 0 <= j < sn[i].1.sub_intervals@.len() implies (
                #[trigger] sn[i].1.sub_intervals@[j]).0 < cfg.replica_config.sub_intervals by {
                    if i == pos as int {
                        // the fresh interval holds only the sub-interval `sub_idx`
                        assert(sn[i].1 == interval);
                        assert(interval.sub_intervals@[j].0 == sub_idx);
                    } else {
                        let oi = if i < pos as int { i } else { i - 1 };
                        assert(sn[i] == s[oi]);
                        assert((s[oi].1.sub_intervals@[j]).0 < cfg.replica_config.sub_intervals);
                    }
                }
            }
        }
    }

    /// Attempts to insert the event and reports what happened: the event may
    /// be new for its key, replace an older one, lose against a newer one, or
    /// lie out of every classifiable interval and be dropped.
    ///
    /// The returned outcome and the new state of the log are pinned down by
    /// [`apply_event`]; in particular the Bloom filter is only ever updated
    /// when the event is actually inserted.
    pub fn insert_event(&mut self, event: Event) -> (r: EventInsertion)
        requires
            old(self).wf(),
        ensures
            final(self).wf(),
            final(self).configuration == old(self).configuration,
            final(self).as_map() == apply_event(
                old(self).configuration,
                old(self).as_map(),
                event.model(),
            ),
            match r {
                EventInsertion::NotInsertedAsOlder => {
                    &&& stale(old(self).as_map(), event.model())
                    &&& final(self).intervals@ == old(self).intervals@
                    &&& final(self).bloom_filter_event == old(self).bloom_filter_event
                },
                EventInsertion::NotInsertedAsOutOfBound => {
                    &&& !old(self).configuration.spec_in_bound(event.timestamp.time)
                    &&& !stale(old(self).as_map(), event.model())
                    &&& final(self).bloom_filter_event == old(self).bloom_filter_event
                },
                EventInsertion::New(e) => {
                    &&& e.model() == event.model()
                    &&& !old(self).as_map().dom().contains(event.key())
                    &&& old(self).configuration.spec_in_bound(event.timestamp.time)
                },
                EventInsertion::ReplacedOlder(old_e) => {
                    &&& old(self).as_map().dom().contains(event.key())
                    &&& old_e.model() == old(self).as_map()[event.key()]
                    &&& old_e.timestamp.spec_lt(event.timestamp)
                    &&& old(self).configuration.spec_in_bound(event.timestamp.time)
                },
            },
    {
        let ghost k = event.key();
        proof {
            lemma_log_map_dom(self.intervals@, k);
        }
        let outcome = if bloom_check(&self.bloom_filter_event, &event.maybe_stripped_key) {
            self.remove_older(&event.maybe_stripped_key, &event.timestamp)
        } else {
            proof {
                if self.contains_key(k) {
                    assert(filter_keys(self.bloom_filter_event).contains(k));
                    assert(false);
                }
            }
            EventRemoval::NotFound
        };
        let ghost scanned = *self;
        proof {
            lemma_log_map_dom(old(self).intervals@, k);
        }
        let removed = match outcome {
            EventRemoval::KeptNewer => {
                return EventInsertion::NotInsertedAsOlder;
            },
            EventRemoval::RemovedOlder(e) => Some(e),
            EventRemoval::NotFound => None,
        };
        let classification = self.configuration.get_time_classification(event.timestamp.time);
        let (interval_idx, sub_idx) = match classification {
            Ok(classified) => classified,
            Err(_) => {
                return EventInsertion::NotInsertedAsOutOfBound;
            },
        };
        proof {
            assert(!self.contains_key(k));
        }
        bloom_set(&mut self.bloom_filter_event, &event.maybe_stripped_key);
        proof {
            assert(!self.contains_key(k));
            assert forall|k2: Option<Seq<u8>>| #[trigger]
                self.contains_key(k2) implies filter_keys(self.bloom_filter_event).contains(k2) by {
                assert(scanned.contains_key(k2));
                assert(filter_keys(scanned.bloom_filter_event).contains(k2));
            }
        }
        let result = match removed {
            Some(old_event) => EventInsertion::ReplacedOlder(old_event),
            None => EventInsertion::New(clone_event(&event)),
        };
        self.insert_classified(interval_idx, sub_idx, event);
        result
    }

    /// Feeds a whole batch of events to the log, in order, ignoring the
    /// individual outcomes; unclassifiable events are dropped.
    pub fn update(&mut self, events: Vec<Event>)
        requires
            old(self).wf(),
        ensures
            final(self).wf(),
            final(self).configuration == old(self).configuration,
            final(self).as_map() == apply_events(
                old(self).configuration,
                old(self).as_map(),
                events@.map_values(|e: Event| e.model()),
            ),
    {
        let ghost models = events@.map_values(|e: Event| e.model());
        let mut i: usize = 0;
        while i < events.len()
            invariant
                old(self).wf(),
                self.wf(),
                models == events@.map_values(|e: Event| e.model()),
                i <= events@.len(),
                self.configuration == old(self).configuration,
                self.as_map() == apply_events(
                    old(self).configuration,
                    old(self).as_map(),
                    models.take(i as int),
                ),
            decreases events@.len() - i,
        {
            let event = clone_event(&events[i]);
            self.insert_event(event);
            i = i + 1;
            proof {
                assert(models.take(i as int).drop_last() =~= models.take(i as int - 1));
                assert(models.take(i as int).last() == models[i as int - 1]);
            }
        }
        proof {
            assert(models.take(models.len() as int) =~= models);
        }
    }

    /// The digest of this log for a hot era whose last interval is `upper`.
    pub open spec fn spec_digest_from(self, upper: u64) -> DigestModel {
        DigestModel {
            configuration_fingerprint: self.configuration.fingerprint,
            cold_era_fingerprint: eras_from(self.configuration, self.intervals@, upper).0,
            warm: eras_from(self.configuration, self.intervals@, upper).1,
            hot: eras_from(self.configuration, self.intervals@, upper).2,
        }
    }

    /// Summarises the log into a digest whose hot era ends at `upper`:
    /// intervals beyond `upper` are ignored, older intervals are folded into
    /// one cold XOR, warm intervals keep one fingerprint each, hot intervals
    /// one per sub-interval.
    pub fn digest_from(&self, upper: u64) -> (r: Digest)
        requires
            self.wf(),
        ensures
            r.wf(),
            r.model() == self.spec_digest_from(upper),
            forall|a: int|
                0 <= a < r.hot_era_fingerprints@.len() ==> (#[trigger] r.hot_era_fingerprints@[a]).1@.len()
                    <= self.configuration.replica_config.sub_intervals,
    {
        let ghost s = self.intervals@;
        let hot_lower = self.configuration.hot_era_lower_bound(upper);
        let warm_lower = self.configuration.warm_era_lower_bound(upper);
        let mut cold = Fingerprint::zero();
        let mut warm: Vec<(u64, Fingerprint)> = Vec::new();
        let mut hot: Vec<(u64, Vec<(u64, Fingerprint)>)> = Vec::new();
        let mut i: usize = 0;
        while i < self.intervals.len()
            invariant
                self.wf(),
                s == self.intervals@,
                i <= s.len(),
                hot_lower == self.configuration.spec_hot_era_lower_bound(upper),
                warm_lower == self.configuration.spec_warm_era_lower_bound(upper),
                cold == eras_from(self.configuration, s.take(i as int), upper).0,
                pairs_map(warm@) == eras_from(self.configuration, s.take(i as int), upper).1,
                hot_pairs_map(hot@) == eras_from(self.configuration, s.take(i as int), upper).2,
                strictly_increasing(warm@),
                strictly_increasing(hot@),
                forall|a: int|
                    0 <= a < warm@.len() ==> exists|b: int|
                        0 <= b < i && (#[trigger] warm@[a]).0 == s[b].0,
                forall|a: int|
                    0 <= a < hot@.len() ==> exists|b: int|
                        0 <= b < i && (#[trigger] hot@[a]).0 == s[b].0,
                forall|a: int| 0 <= a < hot@.len() ==> strictly_increasing((#[trigger] hot@[a]).1@),
                forall|a: int|
                    0 <= a < hot@.len() ==> (#[trigger] hot@[a]).1@.len()
                        <= self.configuration.replica_config.sub_intervals,
            decreases s.len() - i,
        {
            let idx = self.intervals[i].0;
            let ghost warm_before = warm@;
            let ghost hot_before = hot@;
            if idx <= upper {
                if idx < warm_lower {
                    cold = cold.xor(self.intervals[i].1.fingerprint);
                } else if idx < hot_lower {
                    let fpv = self.intervals[i].1.fingerprint;
                    if fpv.value != 0 {
                        warm.push((idx, fpv));
                        proof {
                            assert(warm@.drop_last() =~= warm_before);
                            assert forall|a: int, b: int| 0 <= a < b < warm@.len() implies (
                            #[trigger] warm@[a]).0 < (#[trigger] warm@[b]).0 by {
                                if b == warm@.len() - 1 {
                                    let c = choose|c: int|
                                        0 <= c < i && (#[trigger] warm_before[a]).0 == s[c].0;
                                    assert(s[c].0 < s[i as int].0);
                                }
                            }
                            assert forall|a: int| 0 <= a < warm@.len() implies exists|b: int|
                                0 <= b < i + 1 && (#[trigger] warm@[a]).0 == s[b].0 by {
                                if a < warm@.len() - 1 {
                                    let c = choose|c: int|
                                        0 <= c < i && (#[trigger] warm_before[a]).0 == s[c].0;
                                    assert(warm@[a].0 == s[c].0);
                                } else {
                                    assert(warm@[a].0 == s[i as int].0);
                                }
                            }
                        }
                    }
                } else {
                    let fpv = self.intervals[i].1.fingerprint;
                    if fpv.value != 0 {
                    let subs = self.intervals[i].1.sub_intervals_fingerprints();
                    proof {
                        let bound = self.configuration.replica_config.sub_intervals;
                        assert forall|c: int| 0 <= c < subs@.len() implies (#[trigger] subs@[c]).0
                            < bound by {
                            let b = choose|b: int|
                                0 <= b < s[i as int].1.sub_intervals@.len() && subs@[c].0 == s[
                                i as int].1.sub_intervals@[b].0;
                            assert((s[i as int].1.sub_intervals@[b]).0 < bound);
                        }
                        lemma_strictly_increasing_bounded(subs@, bound as u64);
                    }
                    hot.push((idx, subs));
                    proof {
                        assert(hot@.drop_last() =~= hot_before);
                        assert forall|a: int, b: int| 0 <= a < b < hot@.len() implies (
                        #[trigger] hot@[a]).0 < (#[trigger] hot@[b]).0 by {
                            if b == hot@.len() - 1 {
                                let c = choose|c: int|
                                    0 <= c < i && (#[trigger] hot_before[a]).0 == s[c].0;
                                assert(s[c].0 < s[i as int].0);
                            }
                        }
                        assert forall|a: int| 0 <= a < hot@.len() implies exists|b: int|
                            0 <= b < i + 1 && (#[trigger] hot@[a]).0 == s[b].0 by {
                            if a < hot@.len() - 1 {
                                let c = choose|c: int|
                                    0 <= c < i && (#[trigger] hot_before[a]).0 == s[c].0;
                                assert(hot@[a].0 == s[c].0);
                            } else {
                                assert(hot@[a].0 == s[i as int].0);
                            }
                        }
                    }
                    }
                }
            }
            i = i + 1;
            proof {
                assert(s.take(i as int).drop_last() =~= s.take(i as int - 1));
                assert(s.take(i as int).last() == s[i as int - 1]);
            }
        }
        proof {
            assert(s.take(s.len() as int) =~= s);
        }
        Digest {
            configuration_fingerprint: self.configuration.fingerprint(),
            cold_era_fingerprint: cold,
            warm_era_fingerprints: warm,
            hot_era_fingerprints: hot,
        }
    }

    /// Summarises the log into a digest whose hot era ends at the last
    /// elapsed interval of the configuration's clock.
    ///
    /// Fails with `OutOfBound` when even the current time cannot be
    /// classified.
    pub fn digest(&self) -> (r: Result<Digest, ReplicationError>)
        requires
            self.wf(),
        ensures
            match r {
                Ok(d) => d.wf() && (exists|u: u64| d.model() == self.spec_digest_from(u)),
                Err(e) => e == ReplicationError::OutOfBound,
            },
    {
        match self.configuration.last_elapsed_interval() {
            Ok(upper) => {
                let d = self.digest_from(upper);
                proof {
                    assert(d.model() == self.spec_digest_from(upper));
                }
                Ok(d)
            },
            Err(_) => Err(ReplicationError::OutOfBound),
        }
    }
}

} // verus!
