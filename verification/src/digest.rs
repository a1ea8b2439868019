use vstd::prelude::*;

use crate::classification::{
    lemma_pairs_map_dom, lemma_pairs_map_index, pairs_map, strictly_increasing, sub_fp_map,
    Interval,
};
use crate::configuration::Configuration;
use crate::error::ReplicationError;
use crate::fingerprint::Fingerprint;

verus! {

broadcast use vstd::seq_lib::lemma_seq_contains_after_push;

/// The three-era summary of a replication log: one XOR for the cold era, one
/// fingerprint per interval of the warm era, one fingerprint per sub-interval
/// of the hot era, and the fingerprint of the configuration that shaped them.
///
/// Empty intervals and sub-intervals are left out, so a digest stays sparse.
#[derive(Debug)]
pub struct Digest {
    pub configuration_fingerprint: Fingerprint,
    pub cold_era_fingerprint: Fingerprint,
    pub warm_era_fingerprints: Vec<(u64, Fingerprint)>,
    pub hot_era_fingerprints: Vec<(u64, Vec<(u64, Fingerprint)>)>,
}

/// The mathematical shadow of a [`Digest`]: the same summary with the keyed
/// sequences read as maps.
#[verifier::ext_equal]
pub struct DigestModel {
    pub configuration_fingerprint: Fingerprint,
    pub cold_era_fingerprint: Fingerprint,
    pub warm: Map<u64, Fingerprint>,
    pub hot: Map<u64, Map<u64, Fingerprint>>,
}

/// The hot era read as a map of maps; later entries win.
pub open spec fn hot_pairs_map(s: Seq<(u64, Vec<(u64, Fingerprint)>)>) -> Map<
    u64,
    Map<u64, Fingerprint>,
>
    decreases s.len(),
{
    if s.len() == 0 {
        Map::empty()
    } else {
        hot_pairs_map(s.drop_last()).insert(s.last().0, pairs_map(s.last().1@))
    }
}

/// A key is in the hot map exactly when some pair carries it.
pub proof fn lemma_hot_map_dom(s: Seq<(u64, Vec<(u64, Fingerprint)>)>, x: u64)
    ensures
        hot_pairs_map(s).dom().contains(x) <==> exists|i: int|
            0 <= i < s.len() && (#[trigger] s[i]).0 == x,
    decreases s.len(),
{
    if s.len() > 0 {
        lemma_hot_map_dom(s.drop_last(), x);
        if hot_pairs_map(s).dom().contains(x) {
            if x == s.last().0 {
                assert(s[s.len() - 1].0 == x);
            } else {
                let i = choose|i: int| 0 <= i < s.drop_last().len() && (#[trigger] s.drop_last()[i]).0
                    == x;
                assert(s[i].0 == x);
            }
        }
        if exists|i: int| 0 <= i < s.len() && (#[trigger] s[i]).0 == x {
            let i = choose|i: int| 0 <= i < s.len() && (#[trigger] s[i]).0 == x;
            if i < s.len() - 1 {
                assert(s.drop_last()[i].0 == x);
            }
        }
    }
}

/// Under unique keys, the hot map sends each pair's key to its inner map.
pub proof fn lemma_hot_map_index(s: Seq<(u64, Vec<(u64, Fingerprint)>)>, i: int)
    requires
        0 <= i < s.len(),
        forall|j: int| 0 <= j < s.len() && j != i ==> (#[trigger] s[j]).0 != s[i].0,
    ensures
        hot_pairs_map(s).dom().contains(s[i].0),
        hot_pairs_map(s)[s[i].0] == pairs_map(s[i].1@),
    decreases s.len(),
{
    if i == s.len() - 1 {
    } else {
        assert(s.drop_last()[i] == s[i]);
        assert forall|j: int| 0 <= j < s.drop_last().len() && j != i implies (#[trigger] s.drop_last()[
            j]).0 != s.drop_last()[i].0 by {
            assert(s.drop_last()[j] == s[j]);
        }
        lemma_hot_map_index(s.drop_last(), i);
        assert(s[s.len() - 1].0 != s[i].0);
    }
}

impl Digest {
    pub open spec fn model(self) -> DigestModel {
        DigestModel {
            configuration_fingerprint: self.configuration_fingerprint,
            cold_era_fingerprint: self.cold_era_fingerprint,
            warm: pairs_map(self.warm_era_fingerprints@),
            hot: hot_pairs_map(self.hot_era_fingerprints@),
        }
    }

    /// Every keyed sequence is sorted by key.
    pub open spec fn wf(self) -> bool {
        &&& strictly_increasing(self.warm_era_fingerprints@)
        &&& strictly_increasing(self.hot_era_fingerprints@)
        &&& forall|i: int|
            0 <= i < self.hot_era_fingerprints@.len() ==> strictly_increasing(
                (#[trigger] self.hot_era_fingerprints@[i]).1@,
            )
    }
}

/// The three eras of a digest, folded over a sequence of intervals: every
/// interval at most `upper` lands in the cold, warm or hot era according to
/// its index; younger intervals are ignored.
pub open spec fn eras_from(cfg: Configuration, s: Seq<(u64, Interval)>, upper: u64) -> (
    Fingerprint,
    Map<u64, Fingerprint>,
    Map<u64, Map<u64, Fingerprint>>,
)
    decreases s.len(),
{
    if s.len() == 0 {
        (
            Fingerprint::spec_zero(),
            Map::<u64, Fingerprint>::empty(),
            Map::<u64, Map<u64, Fingerprint>>::empty(),
        )
    } else {
        let rest = eras_from(cfg, s.drop_last(), upper);
        let idx = s.last().0;
        let interval = s.last().1;
        if idx > upper {
            rest
        } else if idx < cfg.spec_warm_era_lower_bound(upper) {
            (rest.0.spec_xor(interval.fingerprint), rest.1, rest.2)
        } else if idx < cfg.spec_hot_era_lower_bound(upper) {
            if interval.fingerprint == Fingerprint::spec_zero() {
                rest
            } else {
                (rest.0, rest.1.insert(idx, interval.fingerprint), rest.2)
            }
        } else if interval.fingerprint == Fingerprint::spec_zero() {
            rest
        } else {
            (rest.0, rest.1, rest.2.insert(idx, sub_fp_map(interval.sub_intervals@)))
        }
    }
}

/// Whether two per-interval fingerprint maps disagree at `x`: the key is on
/// one side only, or the fingerprints differ.
pub open spec fn warm_diff_at(a: Map<u64, Fingerprint>, b: Map<u64, Fingerprint>, x: u64) -> bool {
    if a.dom().contains(x) != b.dom().contains(x) {
        true
    } else {
        a.dom().contains(x) && a[x] != b[x]
    }
}

/// The sub-interval map of interval `x` in a hot era, empty when the
/// interval is absent.
pub open spec fn hot_entry(h: Map<u64, Map<u64, Fingerprint>>, x: u64) -> Map<u64, Fingerprint> {
    if h.dom().contains(x) {
        h[x]
    } else {
        Map::empty()
    }
}

/// Whether two hot eras disagree at sub-interval `y` of interval `x`.
pub open spec fn hot_diff_at(
    a: Map<u64, Map<u64, Fingerprint>>,
    b: Map<u64, Map<u64, Fingerprint>>,
    x: u64,
    y: u64,
) -> bool {
    warm_diff_at(hot_entry(a, x), hot_entry(b, x), y)
}

/// Whether the drill-down list names sub-interval `y` of interval `x`.
pub open spec fn hot_member(h: Seq<(u64, Vec<u64>)>, x: u64, y: u64) -> bool {
    exists|a: int| 0 <= a < h.len() && (#[trigger] h[a]).0 == x && h[a].1@.contains(y)
}

/// What one replica must request from its peer after comparing digests: the
/// whole cold era if its XOR differs, every named warm interval, and every
/// named sub-interval of the hot era.
#[derive(Debug)]
pub struct DigestDiff {
    pub cold_mismatch: bool,
    pub warm_intervals: Vec<u64>,
    pub hot_sub_intervals: Vec<(u64, Vec<u64>)>,
}

/// The fingerprint stored for `x`, if any.
fn lookup_fp(pairs: &Vec<(u64, Fingerprint)>, x: u64) -> (r: Option<Fingerprint>)
    requires
        strictly_increasing(pairs@),
    ensures
        match r {
            Some(f) => pairs_map(pairs@).dom().contains(x) && f == pairs_map(pairs@)[x],
            None => !pairs_map(pairs@).dom().contains(x),
        },
{
    let mut i: usize = 0;
    while i < pairs.len()
        invariant
            strictly_increasing(pairs@),
            i <= pairs@.len(),
            forall|j: int| 0 <= j < i ==> (#[trigger] pairs@[j]).0 != x,
        decreases pairs@.len() - i,
    {
        if pairs[i].0 == x {
            proof {
                assert forall|j: int| 0 <= j < pairs@.len() && j != i implies (
                #[trigger] pairs@[j]).0 != pairs@[i as int].0 by {
                    if j < i {
                        assert(pairs@[j].0 < pairs@[i as int].0);
                    } else {
                        assert(pairs@[i as int].0 < pairs@[j].0);
                    }
                }
                lemma_pairs_map_index(pairs@, i as int);
            }
            return Some(pairs[i].1);
        }
        i = i + 1;
    }
    proof {
        lemma_pairs_map_dom(pairs@, x);
    }
    None
}

/// The intervals at which two sorted per-interval fingerprint lists
/// disagree.
fn diff_warm(a: &Vec<(u64, Fingerprint)>, b: &Vec<(u64, Fingerprint)>) -> (r: Vec<u64>)
    requires
        strictly_increasing(a@),
        strictly_increasing(b@),
    ensures
        forall|x: u64| #[trigger] r@.contains(x) <==> warm_diff_at(pairs_map(a@), pairs_map(b@), x),
{
    let ghost ma = pairs_map(a@);
    let ghost mb = pairs_map(b@);
    let mut out: Vec<u64> = Vec::new();
    let mut i: usize = 0;
    while i < a.len()
        invariant
            strictly_increasing(a@),
            strictly_increasing(b@),
            ma == pairs_map(a@),
            mb == pairs_map(b@),
            i <= a@.len(),
            forall|x: u64| #[trigger]
                out@.contains(x) ==> ma.dom().contains(x) && warm_diff_at(ma, mb, x),
            forall|j: int|
                0 <= j < i ==> (warm_diff_at(ma, mb, (#[trigger] a@[j]).0) ==> out@.contains(
                    a@[j].0,
                )),
        decreases a@.len() - i,
    {
        let x = a[i].0;
        proof {
            assert forall|j: int| 0 <= j < a@.len() && j != i implies (#[trigger] a@[j]).0 != a@[i as int].0
                by {
                if j < i {
                    assert(a@[j].0 < a@[i as int].0);
                } else {
                    assert(a@[i as int].0 < a@[j].0);
                }
            }
            lemma_pairs_map_index(a@, i as int);
        }
        let differs = match lookup_fp(b, x) {
            None => true,
            Some(f) => f.value != a[i].1.value,
        };
        if differs {
            out.push(x);
        }
        i = i + 1;
    }
    let mut i2: usize = 0;
    while i2 < b.len()
        invariant
            strictly_increasing(a@),
            strictly_increasing(b@),
            ma == pairs_map(a@),
            mb == pairs_map(b@),
            i2 <= b@.len(),
            forall|x: u64| #[trigger] out@.contains(x) ==> warm_diff_at(ma, mb, x),
            forall|j: int|
                0 <= j < a@.len() ==> (warm_diff_at(ma, mb, (#[trigger] a@[j]).0)
                    ==> out@.contains(a@[j].0)),
            forall|j: int|
                0 <= j < i2 ==> (warm_diff_at(ma, mb, (#[trigger] b@[j]).0) ==> out@.contains(
                    b@[j].0,
                )),
        decreases b@.len() - i2,
    {
        let x = b[i2].0;
        proof {
            assert forall|j: int| 0 <= j < b@.len() && j != i2 implies (#[trigger] b@[j]).0 != b@[i2 as int].0
                by {
                if j < i2 {
                    assert(b@[j].0 < b@[i2 as int].0);
                } else {
                    assert(b@[i2 as int].0 < b@[j].0);
                }
            }
            lemma_pairs_map_index(b@, i2 as int);
        }
        let missing = match lookup_fp(a, x) {
            None => true,
            Some(_) => false,
        };
        if missing {
            out.push(x);
        } else {
            proof {
                lemma_pairs_map_dom(a@, x);
                let ja = choose|j: int| 0 <= j < a@.len() && (#[trigger] a@[j]).0 == x;
                assert(warm_diff_at(ma, mb, a@[ja].0) ==> out@.contains(a@[ja].0));
            }
        }
        i2 = i2 + 1;
    }
    proof {
        assert forall|x: u64| warm_diff_at(ma, mb, x) implies #[trigger] out@.contains(x) by {
            lemma_pairs_map_dom(a@, x);
            lemma_pairs_map_dom(b@, x);
            if ma.dom().contains(x) {
                let j = choose|j: int| 0 <= j < a@.len() && (#[trigger] a@[j]).0 == x;
                assert(out@.contains(a@[j].0));
            } else if mb.dom().contains(x) {
                let j = choose|j: int| 0 <= j < b@.len() && (#[trigger] b@[j]).0 == x;
                assert(out@.contains(b@[j].0));
            }
        }
    }
    out
}

/// Compares two digests and lists what to request from the peer: nothing at
/// all exactly when the two digests agree era by era.
///
/// Fails with `ConfigurationMismatch` when the digests were produced under
/// different configurations; their eras are incomparable then.
pub fn compare_digests(local: &Digest, remote: &Digest) -> (r: Result<
    DigestDiff,
    ReplicationError,
>)
    requires
        local.wf(),
        remote.wf(),
    ensures
        match r {
            Err(e) => {
                &&& e == ReplicationError::ConfigurationMismatch
                &&& local.configuration_fingerprint != remote.configuration_fingerprint
            },
            Ok(d) => {
                &&& local.configuration_fingerprint == remote.configuration_fingerprint
                &&& d.cold_mismatch == (local.cold_era_fingerprint != remote.cold_era_fingerprint)
                &&& forall|x: u64| #[trigger]
                    d.warm_intervals@.contains(x) <==> warm_diff_at(
                        local.model().warm,
                        remote.model().warm,
                        x,
                    )
                &&& forall|x: u64, y: u64|
                    hot_member(d.hot_sub_intervals@, x, y) <==> hot_diff_at(
                        local.model().hot,
                        remote.model().hot,
                        x,
                        y,
                    )
                &&& (local.model() == remote.model() ==> {
                    &&& !d.cold_mismatch
                    &&& d.warm_intervals@.len() == 0
                    &&& d.hot_sub_intervals@.len() == 0
                })
            },
        },
{
    if local.configuration_fingerprint.value != remote.configuration_fingerprint.value {
        return Err(ReplicationError::ConfigurationMismatch);
    }
    let cold_mismatch = local.cold_era_fingerprint.value != remote.cold_era_fingerprint.value;
    let warm_intervals = diff_warm(&local.warm_era_fingerprints, &remote.warm_era_fingerprints);
    let hot_sub_intervals = diff_hot(&local.hot_era_fingerprints, &remote.hot_era_fingerprints);
    let d = DigestDiff { cold_mismatch, warm_intervals, hot_sub_intervals };
    proof {
        if local.model() == remote.model() {
            if d.warm_intervals@.len() > 0 {
                assert(d.warm_intervals@.contains(d.warm_intervals@[0]));
            }
            if d.hot_sub_intervals@.len() > 0 {
                let p = d.hot_sub_intervals@[0];
                assert(hot_member(d.hot_sub_intervals@, p.0, p.1@[0]));
            }
        }
    }
    Ok(d)
}

/// The inner fingerprint list stored for `x`, if any.
fn lookup_hot<'a>(pairs: &'a Vec<(u64, Vec<(u64, Fingerprint)>)>, x: u64) -> (r: Option<
    &'a Vec<(u64, Fingerprint)>,
>)
    requires
        strictly_increasing(pairs@),
        forall|i: int| 0 <= i < pairs@.len() ==> strictly_increasing((#[trigger] pairs@[i]).1@),
    ensures
        match r {
            Some(v) => {
                &&& hot_pairs_map(pairs@).dom().contains(x)
                &&& pairs_map(v@) == hot_pairs_map(pairs@)[x]
                &&& strictly_increasing(v@)
            },
            None => !hot_pairs_map(pairs@).dom().contains(x),
        },
{
    let mut i: usize = 0;
    while i < pairs.len()
        invariant
            strictly_increasing(pairs@),
            forall|j: int| 0 <= j < pairs@.len() ==> strictly_increasing((#[trigger] pairs@[j]).1@),
            i <= pairs@.len(),
            forall|j: int| 0 <= j < i ==> (#[trigger] pairs@[j]).0 != x,
        decreases pairs@.len() - i,
    {
        if pairs[i].0 == x {
            proof {
                assert forall|j: int| 0 <= j < pairs@.len() && j != i implies (
                #[trigger] pairs@[j]).0 != pairs@[i as int].0 by {
                    if j < i {
                        assert(pairs@[j].0 < pairs@[i as int].0);
                    } else {
                        assert(pairs@[i as int].0 < pairs@[j].0);
                    }
                }
                lemma_hot_map_index(pairs@, i as int);
                assert(strictly_increasing(pairs@[i as int].1@));
            }
            return Some(&pairs[i].1);
        }
        i = i + 1;
    }
    proof {
        lemma_hot_map_dom(pairs@, x);
    }
    None
}

/// The sub-intervals at which two sorted hot eras disagree, grouped by
/// interval; only intervals with at least one disagreement are listed.
fn diff_hot(a: &Vec<(u64, Vec<(u64, Fingerprint)>)>, b: &Vec<(u64, Vec<(u64, Fingerprint)>)>) -> (r:
    Vec<(u64, Vec<u64>)>)
    requires
        strictly_increasing(a@),
        strictly_increasing(b@),
        forall|i: int| 0 <= i < a@.len() ==> strictly_increasing((#[trigger] a@[i]).1@),
        forall|i: int| 0 <= i < b@.len() ==> strictly_increasing((#[trigger] b@[i]).1@),
    ensures
        forall|x: u64, y: u64|
            hot_member(r@, x, y) <==> hot_diff_at(hot_pairs_map(a@), hot_pairs_map(b@), x, y),
        forall|a2: int| 0 <= a2 < r@.len() ==> (#[trigger] r@[a2]).1@.len() > 0,
{
    let ghost ha = hot_pairs_map(a@);
    let ghost hb = hot_pairs_map(b@);
    let empty: Vec<(u64, Fingerprint)> = Vec::new();
    let mut out: Vec<(u64, Vec<u64>)> = Vec::new();
    let mut i: usize = 0;
    while i < a.len()
        invariant
            strictly_increasing(a@),
            strictly_increasing(b@),
            forall|i2: int| 0 <= i2 < a@.len() ==> strictly_increasing((#[trigger] a@[i2]).1@),
            forall|i2: int| 0 <= i2 < b@.len() ==> strictly_increasing((#[trigger] b@[i2]).1@),
            ha == hot_pairs_map(a@),
            hb == hot_pairs_map(b@),
            empty@.len() == 0,
            i <= a@.len(),
            forall|x: u64, y: u64| hot_member(out@, x, y) ==> ha.dom().contains(x) && hot_diff_at(
                ha,
                hb,
                x,
                y,
            ),
            forall|j: int, y: u64|
                0 <= j < i ==> (#[trigger] hot_diff_at(ha, hb, a@[j].0, y) ==> hot_member(
                    out@,
                    a@[j].0,
                    y,
                )),
            forall|a2: int| 0 <= a2 < out@.len() ==> (#[trigger] out@[a2]).1@.len() > 0,
        decreases a@.len() - i,
    {
        let x = a[i].0;
        proof {
            assert forall|j: int| 0 <= j < a@.len() && j != i implies (#[trigger] a@[j]).0 != a@[i as int].0
                by {
                if j < i {
                    assert(a@[j].0 < a@[i as int].0);
                } else {
                    assert(a@[i as int].0 < a@[j].0);
                }
            }
            lemma_hot_map_index(a@, i as int);
        }
        let other = lookup_hot(b, x);
        let ghost out_before = out@;
        let sub_diff = match other {
            Some(bv) => diff_warm(&a[i].1, bv),
            None => diff_warm(&a[i].1, &empty),
        };
        if sub_diff.len() > 0 {
            out.push((x, sub_diff));
            proof {
                assert forall|x2: u64, y2: u64| hot_member(out@, x2, y2) implies ha.dom().contains(
                    x2,
                ) && hot_diff_at(ha, hb, x2, y2) by {
                    let a2 = choose|a2: int|
                        0 <= a2 < out@.len() && (#[trigger] out@[a2]).0 == x2 && out@[a2].1@.contains(
                            y2,
                        );
                    if a2 < out@.len() - 1 {
                        assert(hot_member(out_before, x2, y2));
                    }
                }
                assert forall|j: int, y2: u64|
                    0 <= j < i + 1 && #[trigger] hot_diff_at(ha, hb, a@[j].0, y2) implies hot_member(
                    out@,
                    a@[j].0,
                    y2,
                ) by {
                    if j < i {
                        assert(hot_member(out_before, a@[j].0, y2));
                        let a2 = choose|a2: int|
                            0 <= a2 < out_before.len() && (#[trigger] out_before[a2]).0 == a@[j].0
                                && out_before[a2].1@.contains(y2);
                        assert(out@[a2] == out_before[a2]);
                    } else {
                        assert(out@[out@.len() - 1].0 == a@[j].0);
                        assert(out@[out@.len() - 1].1@.contains(y2));
                    }
                }
            }
        } else {
            proof {
                assert forall|j: int, y2: u64|
                    0 <= j < i + 1 && #[trigger] hot_diff_at(ha, hb, a@[j].0, y2) implies hot_member(
                    out@,
                    a@[j].0,
                    y2,
                ) by {
                    if j < i {
                    } else {
                        assert(sub_diff@.contains(y2));
                        assert(false);
                    }
                }
            }
        }
        i = i + 1;
    }
    let mut i2: usize = 0;
    while i2 < b.len()
        invariant
            strictly_increasing(a@),
            strictly_increasing(b@),
            forall|i3: int| 0 <= i3 < a@.len() ==> strictly_increasing((#[trigger] a@[i3]).1@),
            forall|i3: int| 0 <= i3 < b@.len() ==> strictly_increasing((#[trigger] b@[i3]).1@),
            ha == hot_pairs_map(a@),
            hb == hot_pairs_map(b@),
            empty@.len() == 0,
            i2 <= b@.len(),
            forall|x: u64, y: u64| hot_member(out@, x, y) ==> hot_diff_at(ha, hb, x, y),
            forall|j: int, y: u64|
                0 <= j < a@.len() ==> (#[trigger] hot_diff_at(ha, hb, a@[j].0, y) ==> hot_member(
                    out@,
                    a@[j].0,
                    y,
                )),
            forall|j: int, y: u64|
                0 <= j < i2 ==> (#[trigger] hot_diff_at(ha, hb, b@[j].0, y) ==> hot_member(
                    out@,
                    b@[j].0,
                    y,
                )),
            forall|a2: int| 0 <= a2 < out@.len() ==> (#[trigger] out@[a2]).1@.len() > 0,
        decreases b@.len() - i2,
    {
        let x = b[i2].0;
        proof {
            assert forall|j: int| 0 <= j < b@.len() && j != i2 implies (#[trigger] b@[j]).0 != b@[i2 as int].0
                by {
                if j < i2 {
                    assert(b@[j].0 < b@[i2 as int].0);
                } else {
                    assert(b@[i2 as int].0 < b@[j].0);
                }
            }
            lemma_hot_map_index(b@, i2 as int);
        }
        let missing = match lookup_hot(a, x) {
            None => true,
            Some(_) => false,
        };
        proof {
            if !missing {
                lemma_hot_map_dom(a@, x);
                let ja = choose|j: int| 0 <= j < a@.len() && (#[trigger] a@[j]).0 == x;
                assert forall|y2: u64| #![trigger hot_diff_at(ha, hb, x, y2)]
                    hot_diff_at(ha, hb, x, y2) implies hot_member(out@, b@[i2 as int].0, y2) by {
                    assert(hot_diff_at(ha, hb, a@[ja].0, y2) ==> hot_member(out@, a@[ja].0, y2));
                }
            }
        }
        let ghost out_before = out@;
        if missing {
            let sub_diff = diff_warm(&empty, &b[i2].1);
            if sub_diff.len() > 0 {
                out.push((x, sub_diff));
                proof {
                    assert forall|x2: u64, y2: u64| hot_member(out@, x2, y2) implies hot_diff_at(
                        ha,
                        hb,
                        x2,
                        y2,
                    ) by {
                        let a2 = choose|a2: int|
                            0 <= a2 < out@.len() && (#[trigger] out@[a2]).0 == x2 && out@[a2].1@.contains(
                                y2,
                            );
                        if a2 < out@.len() - 1 {
                            assert(hot_member(out_before, x2, y2));
                        }
                    }
                    assert forall|j: int, y2: u64|
                        0 <= j < a@.len() && #[trigger] hot_diff_at(ha, hb, a@[j].0, y2) implies hot_member(
                        out@,
                        a@[j].0,
                        y2,
                    ) by {
                        assert(hot_member(out_before, a@[j].0, y2));
                        let a2 = choose|a2: int|
                            0 <= a2 < out_before.len() && (#[trigger] out_before[a2]).0 == a@[j].0
                                && out_before[a2].1@.contains(y2);
                        assert(out@[a2] == out_before[a2]);
                    }
                    assert forall|j: int, y2: u64|
                        0 <= j < i2 + 1 && #[trigger] hot_diff_at(ha, hb, b@[j].0, y2) implies hot_member(
                        out@,
                        b@[j].0,
                        y2,
                    ) by {
                        if j < i2 {
                            assert(hot_member(out_before, b@[j].0, y2));
                            let a2 = choose|a2: int|
                                0 <= a2 < out_before.len() && (#[trigger] out_before[a2]).0
                                    == b@[j].0 && out_before[a2].1@.contains(y2);
                            assert(out@[a2] == out_before[a2]);
                        } else {
                            assert(out@[out@.len() - 1].0 == b@[j].0);
                            assert(out@[out@.len() - 1].1@.contains(y2));
                        }
                    }
                }
            } else {
                proof {
                    assert forall|j: int, y2: u64|
                        0 <= j < i2 + 1 && #[trigger] hot_diff_at(ha, hb, b@[j].0, y2) implies hot_member(
                        out@,
                        b@[j].0,
                        y2,
                    ) by {
                        if j < i2 {
                        } else {
                            assert(sub_diff@.contains(y2));
                            assert(false);
                        }
                    }
                }
            }
        }
        i2 = i2 + 1;
    }
    proof {
        assert forall|x: u64, y: u64| hot_diff_at(ha, hb, x, y) implies hot_member(out@, x, y) by {
            lemma_hot_map_dom(a@, x);
            lemma_hot_map_dom(b@, x);
            if ha.dom().contains(x) {
                let j = choose|j: int| 0 <= j < a@.len() && (#[trigger] a@[j]).0 == x;
                assert(hot_member(out@, a@[j].0, y));
            } else if hb.dom().contains(x) {
                let j = choose|j: int| 0 <= j < b@.len() && (#[trigger] b@[j]).0 == x;
                assert(hot_member(out@, b@[j].0, y));
            }
        }
    }
    out
}

} // verus!
