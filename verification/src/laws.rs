use vstd::prelude::*;

use crate::classification::{
    lemma_events_map_index, lemma_interval_map_index, Interval, SubInterval,
};
use crate::configuration::Configuration;
use crate::event::EventModel;
use crate::filter::filter_keys;
use crate::fingerprint::{lemma_xor_all_concat, xor_all, Fingerprint};
use crate::log::{
    apply_event, apply_events, lemma_log_map_dom, lemma_log_map_index, lww_apply, stale, LogLatest,
};

verus! {

/// Uniqueness: a well-formed log tracks at most one event per key. Every
/// event stored anywhere in the log is exactly the one its key-to-event map
/// assigns to the event's key, so two stored events with the same key are
/// the same record.
pub proof fn lemma_log_uniqueness(log: LogLatest, i: int, j: int, n: int)
    requires
        log.wf(),
        0 <= i < log.intervals@.len(),
        0 <= j < log.intervals@[i].1.sub_intervals@.len(),
        0 <= n < log.intervals@[i].1.sub_intervals@[j].1.events@.len(),
    ensures
        log.as_map().dom().contains(log.intervals@[i].1.sub_intervals@[j].1.events@[n].key()),
        log.as_map()[log.intervals@[i].1.sub_intervals@[j].1.events@[n].key()] == log.intervals@[i].1.sub_intervals@[j].1.events@[n].model(),
{
    let s = log.intervals@;
    let interval = s[i].1;
    let subs = interval.sub_intervals@;
    let sub = subs[j].1;
    let e = sub.events@[n];
    let k = e.key();
    assert(s[i].1.wf());
    assert(subs[j].1.wf());
    assert(sub.contains_key(k));
    assert(interval.contains_key(k));
    assert(log.contains_key(k));
    lemma_events_map_index(sub.events@, n);
    assert forall|j2: int| 0 <= j2 < subs.len() && j2 != j implies !(#[trigger] subs[j2]).1.contains_key(
        k,
    ) by {
        if j2 < j {
            assert(!(subs[j2].1.contains_key(k) && subs[j].1.contains_key(k)));
        } else {
            assert(!(subs[j].1.contains_key(k) && subs[j2].1.contains_key(k)));
        }
    }
    lemma_interval_map_index(subs, j, k);
    assert forall|i2: int| 0 <= i2 < s.len() && i2 != i implies !(#[trigger] s[i2]).1.contains_key(
        k,
    ) by {
        if i2 < i {
            assert(!(s[i2].1.contains_key(k) && s[i].1.contains_key(k)));
        } else {
            assert(!(s[i].1.contains_key(k) && s[i2].1.contains_key(k)));
        }
    }
    lemma_log_map_index(s, i, k);
}

/// Bloom soundness: whenever the log tracks a key — whenever `lookup` can
/// answer `Some` — the Bloom filter reports that key as present. A negative
/// answer of the filter is therefore authoritative.
pub proof fn lemma_bloom_soundness(log: LogLatest, k: Option<Seq<u8>>)
    requires
        log.wf(),
        log.as_map().dom().contains(k),
    ensures
        filter_keys(log.bloom_filter_event).contains(k),
{
    lemma_log_map_dom(log.intervals@, k);
    assert(log.contains_key(k));
}

/// The fingerprints of every event held anywhere in a sequence of
/// sub-intervals, in storage order.
pub open spec fn all_event_fingerprints(s: Seq<(u64, SubInterval)>) -> Seq<Fingerprint>
    decreases s.len(),
{
    if s.len() == 0 {
        Seq::empty()
    } else {
        all_event_fingerprints(s.drop_last()) + s.last().1.fingerprints()
    }
}

/// Fingerprint homomorphism: the cached fingerprint of a well-formed
/// interval equals the XOR of the fingerprints of every event it holds.
pub proof fn lemma_interval_fingerprint(interval: Interval)
    requires
        interval.wf(),
    ensures
        interval.fingerprint == xor_all(all_event_fingerprints(interval.sub_intervals@)),
{
    lemma_sub_fingerprints_flatten(interval.sub_intervals@);
}

/// The XOR of the cached sub-interval fingerprints equals the XOR of all
/// event fingerprints, provided each sub-interval caches its own XOR.
proof fn lemma_sub_fingerprints_flatten(s: Seq<(u64, SubInterval)>)
    requires
        forall|i: int| 0 <= i < s.len() ==> (#[trigger] s[i]).1.wf(),
    ensures
        xor_all(s.map_values(|p: (u64, SubInterval)| p.1.fingerprint)) == xor_all(
            all_event_fingerprints(s),
        ),
    decreases s.len(),
{
    if s.len() == 0 {
        assert(s.map_values(|p: (u64, SubInterval)| p.1.fingerprint) =~= Seq::<
            Fingerprint,
        >::empty());
    } else {
        let t = s.drop_last();
        assert forall|i: int| 0 <= i < t.len() implies (#[trigger] t[i]).1.wf() by {
            assert(t[i] == s[i]);
        }
        lemma_sub_fingerprints_flatten(t);
        lemma_xor_all_concat(all_event_fingerprints(t), s.last().1.fingerprints());
        assert(s[s.len() - 1].1.wf());
        let fps = s.map_values(|p: (u64, SubInterval)| p.1.fingerprint);
        assert(fps.drop_last() =~= t.map_values(|p: (u64, SubInterval)| p.1.fingerprint));
        assert(fps.last() == s.last().1.fingerprint);
    }
}

/// Digest stability: the digest is a pure function of the log's state and
/// the chosen upper bound — two logs in the same state summarise to the
/// same digest, which is what `digest_from` ensures of its result.
pub proof fn lemma_digest_stability(l1: LogLatest, l2: LogLatest, upper: u64)
    requires
        l1.configuration == l2.configuration,
        l1.intervals@ == l2.intervals@,
    ensures
        l1.spec_digest_from(upper) == l2.spec_digest_from(upper),
{
}

/// Idempotent re-insertion: once an event has been applied, applying the
/// very same event again is stale — the log reports it as older and the
/// key-to-event map does not change. By the contract of `insert_event`, the
/// second of two identical insertions returns the not-inserted-as-older
/// outcome and leaves the log as it was.
pub proof fn lemma_idempotent_reinsertion(m: Map<Option<Seq<u8>>, EventModel>, e: EventModel)
    ensures
        stale(lww_apply(m, e), e),
        lww_apply(lww_apply(m, e), e) == lww_apply(m, e),
{
    if !stale(m, e) {
        assert(lww_apply(m, e)[e.key] == e);
    }
}

/// Two events with the same key and the same timestamp are the same record.
pub open spec fn pairwise_coherent(s: Seq<EventModel>) -> bool {
    forall|i: int, j: int|
        0 <= i < s.len() && 0 <= j < s.len() && (#[trigger] s[i]).key == (#[trigger] s[j]).key
            && s[i].timestamp == s[j].timestamp ==> s[i] == s[j]
}

/// A map's entry that shares key and timestamp with one of the events is
/// that event; map entries sit at their own key.
pub open spec fn map_coherent_with(m: Map<Option<Seq<u8>>, EventModel>, s: Seq<EventModel>) -> bool {
    &&& forall|k: Option<Seq<u8>>| #[trigger] m.dom().contains(k) ==> m[k].key == k
    &&& forall|i: int|
        0 <= i < s.len() && m.dom().contains((#[trigger] s[i]).key) && m[s[i].key].timestamp
            == s[i].timestamp ==> m[s[i].key] == s[i]
}

/// Every entry of `m` is an entry of `m0` at the same key, or one of the
/// events of `s`, sitting at its own key.
pub open spec fn evolved_from(
    m: Map<Option<Seq<u8>>, EventModel>,
    m0: Map<Option<Seq<u8>>, EventModel>,
    s: Seq<EventModel>,
) -> bool {
    forall|k: Option<Seq<u8>>| #[trigger]
        m.dom().contains(k) ==> ((m0.dom().contains(k) && m[k] == m0[k]) || (s.contains(m[k])
            && m[k].key == k))
}

/// Folding a batch only ever stores entries of the base map or events of
/// the batch.
proof fn lemma_apply_events_evolved(
    cfg: Configuration,
    m: Map<Option<Seq<u8>>, EventModel>,
    s: Seq<EventModel>,
)
    ensures
        evolved_from(apply_events(cfg, m, s), m, s),
    decreases s.len(),
{
    if s.len() > 0 {
        let t = s.drop_last();
        lemma_apply_events_evolved(cfg, m, t);
        let mid = apply_events(cfg, m, t);
        let e = s.last();
        assert forall|k: Option<Seq<u8>>| #[trigger]
            apply_events(cfg, m, s).dom().contains(k) implies ((m.dom().contains(k)
            && apply_events(cfg, m, s)[k] == m[k]) || (s.contains(apply_events(cfg, m, s)[k])
            && apply_events(cfg, m, s)[k].key == k)) by {
            let fin = apply_events(cfg, m, s);
            if fin[k] == e && k == e.key {
                assert(s[s.len() - 1] == e);
                assert(s.contains(fin[k]));
            } else {
                assert(mid.dom().contains(k) && fin[k] == mid[k]);
                if !(m.dom().contains(k) && mid[k] == m[k]) {
                    assert(t.contains(mid[k]) && mid[k].key == k);
                    let i = choose|i: int| 0 <= i < t.len() && t[i] == mid[k];
                    assert(s[i] == mid[k]);
                    assert(s.contains(mid[k]));
                }
            }
        }
    }
}

/// Applying two coherent events commutes.
proof fn lemma_lww_two(
    m: Map<Option<Seq<u8>>, EventModel>,
    e1: EventModel,
    e2: EventModel,
)
    requires
        e1.key == e2.key && e1.timestamp == e2.timestamp ==> e1 == e2,
        m.dom().contains(e1.key) && m[e1.key].timestamp == e1.timestamp ==> m[e1.key] == e1,
        m.dom().contains(e2.key) && m[e2.key].timestamp == e2.timestamp ==> m[e2.key] == e2,
    ensures
        lww_apply(lww_apply(m, e1), e2) =~= lww_apply(lww_apply(m, e2), e1),
{
    if e1.key != e2.key {
        assert(lww_apply(lww_apply(m, e1), e2) =~= lww_apply(lww_apply(m, e2), e1));
    }
}

/// An event pushes through a whole batch: applying it before or after the
/// batch gives the same map, as long as keys and timestamps are coherent.
proof fn lemma_lww_push_through(
    cfg: Configuration,
    m: Map<Option<Seq<u8>>, EventModel>,
    e: EventModel,
    s: Seq<EventModel>,
)
    requires
        cfg.spec_in_bound(e.timestamp.time),
        forall|i: int| 0 <= i < s.len() ==> cfg.spec_in_bound((#[trigger] s[i]).timestamp.time),
        pairwise_coherent(s.push(e)),
        map_coherent_with(m, s.push(e)),
    ensures
        apply_events(cfg, lww_apply(m, e), s) =~= lww_apply(apply_events(cfg, m, s), e),
    decreases s.len(),
{
    if s.len() == 0 {
    } else {
        let t = s.drop_last();
        let l = s.last();
        assert forall|i: int| 0 <= i < t.len() implies cfg.spec_in_bound(
            (#[trigger] t[i]).timestamp.time,
        ) by {
            assert(t[i] == s[i]);
        }
        assert forall|i: int, j: int|
            0 <= i < t.push(e).len() && 0 <= j < t.push(e).len() && (#[trigger] t.push(e)[i]).key
                == (#[trigger] t.push(e)[j]).key && t.push(e)[i].timestamp == t.push(
                e,
            )[j].timestamp implies t.push(e)[i] == t.push(e)[j] by {
            let si = if i < t.len() { i } else { s.len() as int };
            let sj = if j < t.len() { j } else { s.len() as int };
            assert(t.push(e)[i] == s.push(e)[si]);
            assert(t.push(e)[j] == s.push(e)[sj]);
        }
        assert forall|k: Option<Seq<u8>>| #[trigger] m.dom().contains(k) implies m[k].key == k by {}
        assert forall|i: int|
            0 <= i < t.push(e).len() && m.dom().contains((#[trigger] t.push(e)[i]).key) && m[t.push(
                e,
            )[i].key].timestamp == t.push(e)[i].timestamp implies m[t.push(e)[i].key] == t.push(
            e,
        )[i] by {
            let si = if i < t.len() { i } else { s.len() as int };
            assert(t.push(e)[i] == s.push(e)[si]);
        }
        lemma_lww_push_through(cfg, m, e, t);
        let mid = apply_events(cfg, m, t);
        // coherence of `mid` against e and l, from evolution
        lemma_apply_events_evolved(cfg, m, t);
        assert(s.push(e)[s.len() as int] == e);
        assert(s.push(e)[s.len() - 1] == l);
        assert(mid.dom().contains(e.key) && mid[e.key].timestamp == e.timestamp ==> mid[e.key]
            == e) by {
            if mid.dom().contains(e.key) && mid[e.key].timestamp == e.timestamp {
                if m.dom().contains(e.key) && mid[e.key] == m[e.key] {
                    assert(s.push(e)[s.len() as int] == e);
                    assert(m[e.key] == e);
                } else {
                    assert(t.contains(mid[e.key]) && mid[e.key].key == e.key);
                    let x = mid[e.key];
                    let ti = choose|ti: int| 0 <= ti < t.len() && t[ti] == x;
                    assert(s.push(e)[ti] == x);
                    assert((#[trigger] s.push(e)[ti]).key == (#[trigger] s.push(e)[s.len() as int]).key);
                    assert(x == e);
                }
            }
        }
        assert(mid.dom().contains(l.key) && mid[l.key].timestamp == l.timestamp ==> mid[l.key]
            == l) by {
            if mid.dom().contains(l.key) && mid[l.key].timestamp == l.timestamp {
                if m.dom().contains(l.key) && mid[l.key] == m[l.key] {
                    assert(m[l.key] == l);
                } else {
                    assert(t.contains(mid[l.key]) && mid[l.key].key == l.key);
                    let x = mid[l.key];
                    let ti = choose|ti: int| 0 <= ti < t.len() && t[ti] == x;
                    assert(s.push(e)[ti] == x);
                    assert((#[trigger] s.push(e)[ti]).key == (#[trigger] s.push(e)[s.len() - 1]).key);
                    assert(x == l);
                }
            }
        }
        assert(l.key == e.key && l.timestamp == e.timestamp ==> l == e);
        lemma_lww_two(mid, e, l);
        assert(apply_events(cfg, lww_apply(m, e), s) == apply_event(
            cfg,
            apply_events(cfg, lww_apply(m, e), t),
            l,
        ));
        assert(apply_events(cfg, lww_apply(m, e), t) =~= lww_apply(mid, e));
        assert(apply_event(cfg, lww_apply(mid, e), l) == lww_apply(lww_apply(mid, e), l));
        assert(lww_apply(lww_apply(mid, e), l) =~= lww_apply(lww_apply(mid, l), e));
        assert(apply_events(cfg, m, s) == lww_apply(mid, l));
    }
}

/// Splitting a batch splits the fold.
pub proof fn lemma_apply_events_concat(
    cfg: Configuration,
    m: Map<Option<Seq<u8>>, EventModel>,
    a: Seq<EventModel>,
    b: Seq<EventModel>,
)
    ensures
        apply_events(cfg, m, a + b) == apply_events(cfg, apply_events(cfg, m, a), b),
    decreases b.len(),
{
    if b.len() == 0 {
        assert(a + b =~= a);
    } else {
        assert((a + b).drop_last() =~= a + b.drop_last());
        assert((a + b).last() == b.last());
        lemma_apply_events_concat(cfg, m, a, b.drop_last());
    }
}

/// Last-writer-wins convergence: feeding two batches of events in either
/// order yields the same key-to-event map, provided every event lies in
/// bound of the configuration and no two different records share a key and
/// a timestamp — which hybrid logical clocks guarantee.
pub proof fn lemma_lww_convergence(
    cfg: Configuration,
    m: Map<Option<Seq<u8>>, EventModel>,
    a: Seq<EventModel>,
    b: Seq<EventModel>,
)
    requires
        forall|i: int|
            0 <= i < (a + b).len() ==> cfg.spec_in_bound((#[trigger] (a + b)[i]).timestamp.time),
        pairwise_coherent(a + b),
        map_coherent_with(m, a + b),
    ensures
        apply_events(cfg, m, a + b) == apply_events(cfg, m, b + a),
    decreases a.len(),
{
    lemma_apply_events_concat(cfg, m, a, b);
    lemma_apply_events_concat(cfg, m, b, a);
    lemma_lww_swap(cfg, m, a, b);
}

/// The two-fold form of convergence: fold `a` then `b`, or `b` then `a`.
proof fn lemma_lww_swap(
    cfg: Configuration,
    m: Map<Option<Seq<u8>>, EventModel>,
    a: Seq<EventModel>,
    b: Seq<EventModel>,
)
    requires
        forall|i: int|
            0 <= i < (a + b).len() ==> cfg.spec_in_bound((#[trigger] (a + b)[i]).timestamp.time),
        pairwise_coherent(a + b),
        map_coherent_with(m, a + b),
    ensures
        apply_events(cfg, apply_events(cfg, m, a), b) =~= apply_events(
            cfg,
            apply_events(cfg, m, b),
            a,
        ),
    decreases b.len(),
{
    if b.len() == 0 {
    } else {
        let t = b.drop_last();
        let l = b.last();
        assert forall|i: int|
            0 <= i < (a + t).len() implies cfg.spec_in_bound(
            (#[trigger] (a + t)[i]).timestamp.time,
        ) by {
            assert((a + t)[i] == (a + b)[i]);
        }
        assert forall|i: int, j: int|
            0 <= i < (a + t).len() && 0 <= j < (a + t).len() && (#[trigger] (a + t)[i]).key == (
            #[trigger] (a + t)[j]).key && (a + t)[i].timestamp == (a + t)[j].timestamp implies (a
            + t)[i] == (a + t)[j] by {
            assert((a + t)[i] == (a + b)[i]);
            assert((a + t)[j] == (a + b)[j]);
        }
        assert forall|i: int|
            0 <= i < (a + t).len() && m.dom().contains((#[trigger] (a + t)[i]).key) && m[(a + t)[
            i].key].timestamp == (a + t)[i].timestamp implies m[(a + t)[i].key] == (a + t)[i] by {
            assert((a + t)[i] == (a + b)[i]);
        }
        lemma_lww_swap(cfg, m, a, t);
        // fold(fold(m,a), b) == lww(fold(fold(m,a), t), l) == lww(fold(fold(m,t), a), l)
        // and fold(fold(m,b), a) == fold(lww(fold(m,t), l), a); push l through a.
        let mt = apply_events(cfg, m, t);
        assert(cfg.spec_in_bound(l.timestamp.time)) by {
            assert((a + b)[a.len() + b.len() - 1] == l);
        }
        assert forall|i: int| 0 <= i < a.len() implies cfg.spec_in_bound(
            (#[trigger] a[i]).timestamp.time,
        ) by {
            assert((a + b)[i] == a[i]);
        }
        assert forall|i: int, j: int|
            0 <= i < a.push(l).len() && 0 <= j < a.push(l).len() && (#[trigger] a.push(l)[i]).key
                == (#[trigger] a.push(l)[j]).key && a.push(l)[i].timestamp == a.push(
                l,
            )[j].timestamp implies a.push(l)[i] == a.push(l)[j] by {
            let si: int = if i < a.len() { i } else { a.len() + b.len() - 1 };
            let sj: int = if j < a.len() { j } else { a.len() + b.len() - 1 };
            assert(a.push(l)[i] == (a + b)[si]);
            assert(a.push(l)[j] == (a + b)[sj]);
        }
        lemma_apply_events_evolved(cfg, m, t);
        assert forall|k: Option<Seq<u8>>| #[trigger] mt.dom().contains(k) implies mt[k].key
            == k by {
            if !(m.dom().contains(k) && mt[k] == m[k]) {
            }
        }
        assert forall|i: int|
            0 <= i < a.push(l).len() && mt.dom().contains((#[trigger] a.push(l)[i]).key) && mt[
            a.push(l)[i].key].timestamp == a.push(l)[i].timestamp implies mt[a.push(l)[i].key]
            == a.push(l)[i] by {
            let x = a.push(l)[i];
            let si: int = if i < a.len() { i } else { a.len() + b.len() - 1 };
            assert(x == (a + b)[si]);
            if m.dom().contains(x.key) && mt[x.key] == m[x.key] {
                assert(m[x.key] == x);
            } else {
                assert(t.contains(mt[x.key]) && mt[x.key].key == x.key);
                let ti = choose|ti: int| 0 <= ti < t.len() && t[ti] == mt[x.key];
                assert((a + b)[a.len() + ti] == t[ti]);
            }
        }
        lemma_lww_push_through(cfg, mt, l, a);
        assert(apply_events(cfg, apply_events(cfg, m, a), b) == apply_event(
            cfg,
            apply_events(cfg, apply_events(cfg, m, a), t),
            l,
        ));
        assert(apply_events(cfg, apply_events(cfg, m, a), t) =~= apply_events(
            cfg,
            mt,
            a,
        ));
        assert(apply_event(cfg, apply_events(cfg, mt, a), l) == lww_apply(
            apply_events(cfg, mt, a),
            l,
        ));
        assert(apply_events(cfg, m, b) == lww_apply(mt, l));
        assert(apply_events(cfg, lww_apply(mt, l), a) =~= lww_apply(apply_events(cfg, mt, a), l));
    }
}

} // verus!
