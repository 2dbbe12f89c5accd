//! The counter kernel: the tagged value a metric carries and the arithmetic
//! on it.  A `Counter` is a running scalar with the wall-clock timestamp of
//! its last update; a `Gauge` is a running aggregate reporting its mean.

use vstd::prelude::*;

use crate::errors::ProxyErr;
use crate::util::{
    add_sat_i64, add_sat_u64, div_value, div_value_i64, mean_u64, sat_add_i64, sat_add_u64,
    sat_sub_i64, sat_sub_u64, sub_sat_i64, sub_sat_u64, ts_mean,
};

verus! {

/// A metric value: either a cumulative counter or a min/max/mean aggregate.
#[derive(Clone, Copy, Debug, PartialEq, Eq, Structural)]
pub enum CounterType {
    Counter { ts: u64, value: i64 },
    Gauge { min: i64, max: i64, hits: u64, total: i64 },
}

/// Both values carry the same variant.
pub open spec fn same_variant(a: CounterType, b: CounterType) -> bool {
    (a is Counter && b is Counter) || (a is Gauge && b is Gauge)
}

/// What merging `b` into `a` yields: counters add their values and average
/// their timestamps; gauges keep the observed range and add hits and totals.
pub open spec fn spec_merge(a: CounterType, b: CounterType) -> CounterType
    recommends
        same_variant(a, b),
{
    match (a, b) {
        (
            CounterType::Counter { ts: ats, value: av },
            CounterType::Counter { ts: bts, value: bv },
        ) => CounterType::Counter {
            ts: ts_mean(ats as int, bts as int) as u64,
            value: sat_add_i64(av as int, bv as int) as i64,
        },
        (
            CounterType::Gauge { min: amin, max: amax, hits: ah, total: at },
            CounterType::Gauge { min: bmin, max: bmax, hits: bh, total: bt },
        ) => CounterType::Gauge {
            min: if amin <= bmin { amin } else { bmin },
            max: if amax >= bmax { amax } else { bmax },
            hits: sat_add_u64(ah as int, bh as int) as u64,
            total: sat_add_i64(at as int, bt as int) as i64,
        },
        _ => a,
    }
}

/// What setting `a` from `b` yields: counters accumulate, exactly as merge
/// does, while a gauge is replaced by a one-hit observation of `b`'s total.
/// The asymmetry is load-bearing for the ingest path.
pub open spec fn spec_set(a: CounterType, b: CounterType) -> CounterType
    recommends
        same_variant(a, b),
{
    match (a, b) {
        (CounterType::Counter { .. }, CounterType::Counter { .. }) => spec_merge(a, b),
        (
            CounterType::Gauge { .. },
            CounterType::Gauge { min: _, max: _, hits: _, total: bt },
        ) => CounterType::Gauge { min: bt, max: bt, hits: 1, total: bt },
        _ => a,
    }
}

/// What subtracting `b` from `a` yields, elementwise; used to turn two
/// successive remote samples into a local increment.
pub open spec fn spec_delta(a: CounterType, b: CounterType) -> CounterType
    recommends
        same_variant(a, b),
{
    match (a, b) {
        (
            CounterType::Counter { ts: ats, value: av },
            CounterType::Counter { ts: bts, value: bv },
        ) => CounterType::Counter {
            ts: sat_sub_u64(ats as int, bts as int) as u64,
            value: sat_sub_i64(av as int, bv as int) as i64,
        },
        (
            CounterType::Gauge { min: amin, max: amax, hits: ah, total: at },
            CounterType::Gauge { min: bmin, max: bmax, hits: bh, total: bt },
        ) => CounterType::Gauge {
            min: if amin <= bmin { amin } else { bmin },
            max: if amax >= bmax { amax } else { bmax },
            hits: sat_sub_u64(ah as int, bh as int) as u64,
            total: sat_sub_i64(at as int, bt as int) as i64,
        },
        _ => a,
    }
}

/// The value a counter reports: the raw scalar for a counter, the truncated
/// mean (total over hits, zero when empty) for a gauge.
pub open spec fn spec_value(a: CounterType) -> int {
    match a {
        CounterType::Counter { ts: _, value } => value as int,
        CounterType::Gauge { min: _, max: _, hits, total } => div_value(
            total as int,
            hits as int,
        ),
    }
}

/// A counter holds data when its scalar is non-zero; a gauge when it was hit.
pub open spec fn spec_hasdata(a: CounterType) -> bool {
    match a {
        CounterType::Counter { ts: _, value } => value != 0,
        CounterType::Gauge { min: _, max: _, hits, total: _ } => hits != 0,
    }
}

impl CounterType {
    /// A counter's own timestamp; a gauge carries none and hands back the
    /// clock reading it is given.
    pub fn ts(&self, now_us: u64) -> (r: u64)
        ensures
            self is Counter ==> r == self->Counter_ts,
            self is Gauge ==> r == now_us,
    {
        match self {
            CounterType::Counter { ts, value: _ } => *ts,
            CounterType::Gauge { .. } => now_us,
        }
    }

    /// A fresh, empty counter.
    pub fn newcounter() -> (r: CounterType)
        ensures
            r == (CounterType::Counter { ts: 0u64, value: 0i64 }),
    {
        CounterType::Counter { ts: 0, value: 0 }
    }

    /// A fresh, empty gauge.
    pub fn newgauge() -> (r: CounterType)
        ensures
            r == (CounterType::Gauge { min: 0i64, max: 0i64, hits: 0u64, total: 0i64 }),
    {
        CounterType::Gauge { min: 0, max: 0, hits: 0, total: 0 }
    }

    /// True when the value has recorded anything.
    pub fn hasdata(&self) -> (r: bool)
        ensures
            r == spec_hasdata(*self),
    {
        match self {
            CounterType::Counter { ts: _, value } => *value != 0,
            CounterType::Gauge { min: _, max: _, hits, total: _ } => *hits != 0,
        }
    }

    /// The reported value.
    pub fn value(&self) -> (r: i64)
        ensures
            r == spec_value(*self),
    {
        match self {
            CounterType::Counter { ts: _, value } => *value,
            CounterType::Gauge { min: _, max: _, hits, total } => div_value_i64(*total, *hits),
        }
    }

    /// Merge `other` into `self`; fails, leaving `self` untouched, when the
    /// variants differ.
    pub fn merge(&mut self, other: &CounterType) -> (r: Result<(), ProxyErr>)
        ensures
            same_variant(*old(self), *other) ==> r is Ok && *final(self) == spec_merge(
                *old(self),
                *other,
            ),
            !same_variant(*old(self), *other) ==> r is Err && *final(self) == *old(self),
    {
        match (&*self, other) {
            (
                CounterType::Counter { ts: sts, value: svalue },
                CounterType::Counter { ts, value },
            ) => {
                let nts = mean_u64(*sts, *ts);
                let nvalue = add_sat_i64(*svalue, *value);
                *self = CounterType::Counter { ts: nts, value: nvalue };
                Ok(())
            },
            (
                CounterType::Gauge { min: smin, max: smax, hits: shits, total: stotal },
                CounterType::Gauge { min, max, hits, total },
            ) => {
                let nmin = if *smin <= *min {
                    *smin
                } else {
                    *min
                };
                let nmax = if *smax >= *max {
                    *smax
                } else {
                    *max
                };
                let nhits = add_sat_u64(*shits, *hits);
                let ntotal = add_sat_i64(*stotal, *total);
                *self = CounterType::Gauge { min: nmin, max: nmax, hits: nhits, total: ntotal };
                Ok(())
            },
            _ => Err(ProxyErr::new("Both instances are not of the same variant")),
        }
    }

    /// Set `self` from `other`: a counter accumulates, a gauge is replaced by
    /// a one-hit observation.  Fails, leaving `self` untouched, when the
    /// variants differ.
    pub fn set(&mut self, other: &CounterType) -> (r: Result<(), ProxyErr>)
        ensures
            same_variant(*old(self), *other) ==> r is Ok && *final(self) == spec_set(
                *old(self),
                *other,
            ),
            !same_variant(*old(self), *other) ==> r is Err && *final(self) == *old(self),
    {
        match (&*self, other) {
            (
                CounterType::Counter { ts: sts, value: svalue },
                CounterType::Counter { ts, value },
            ) => {
                let nts = mean_u64(*sts, *ts);
                let nvalue = add_sat_i64(*svalue, *value);
                *self = CounterType::Counter { ts: nts, value: nvalue };
                Ok(())
            },
            (
                CounterType::Gauge { .. },
                CounterType::Gauge { min: _, max: _, hits: _, total },
            ) => {
                *self = CounterType::Gauge { min: *total, max: *total, hits: 1, total: *total };
                Ok(())
            },
            _ => Err(ProxyErr::new("Both instances are not of the same variant")),
        }
    }

    /// Subtract `other` from `self`, elementwise.  Fails, leaving `self`
    /// untouched, when the variants differ.
    pub fn delta(&mut self, other: &CounterType) -> (r: Result<(), ProxyErr>)
        ensures
            same_variant(*old(self), *other) ==> r is Ok && *final(self) == spec_delta(
                *old(self),
                *other,
            ),
            !same_variant(*old(self), *other) ==> r is Err && *final(self) == *old(self),
    {
        match (&*self, other) {
            (
                CounterType::Counter { ts: sts, value: svalue },
                CounterType::Counter { ts, value },
            ) => {
                let nts = sub_sat_u64(*sts, *ts);
                let nvalue = sub_sat_i64(*svalue, *value);
                *self = CounterType::Counter { ts: nts, value: nvalue };
                Ok(())
            },
            (
                CounterType::Gauge { min: smin, max: smax, hits: shits, total: stotal },
                CounterType::Gauge { min, max, hits, total },
            ) => {
                let nmin = if *smin <= *min {
                    *smin
                } else {
                    *min
                };
                let nmax = if *smax >= *max {
                    *smax
                } else {
                    *max
                };
                let nhits = sub_sat_u64(*shits, *hits);
                let ntotal = sub_sat_i64(*stotal, *total);
                *self = CounterType::Gauge { min: nmin, max: nmax, hits: nhits, total: ntotal };
                Ok(())
            },
            _ => Err(ProxyErr::new("Both instances are not of the same variant")),
        }
    }

    /// Check that `other` carries the same variant as `self`.
    pub fn same_type(&self, other: &CounterType) -> (r: Result<(), ProxyErr>)
        ensures
            r is Ok <==> same_variant(*self, *other),
    {
        match (self, other) {
            (CounterType::Gauge { .. }, CounterType::Gauge { .. }) => Ok(()),
            (CounterType::Counter { .. }, CounterType::Counter { .. }) => Ok(()),
            _ => Err(ProxyErr::new("Both instances are not of the same variant")),
        }
    }
}

/// Merging never returns a value across variants: on a counter and a gauge
/// it is an error, and the target is left as it was.
pub proof fn lemma_variant_safety(a: CounterType, b: CounterType)
    requires
        a is Counter && b is Gauge || a is Gauge && b is Counter,
    ensures
        !same_variant(a, b),
{
}

/// Merge law for counters: merging two counters yields exactly the integer
/// mean of their timestamps and the sum of their values, commutatively on
/// the value, as long as the sum does not saturate.
pub proof fn lemma_merge_counter_sum(ats: u64, av: i64, bts: u64, bv: i64)
    requires
        crate::util::i64_min() <= av + bv <= crate::util::i64_max(),
    ensures
        spec_merge(
            CounterType::Counter { ts: ats, value: av },
            CounterType::Counter { ts: bts, value: bv },
        ) == (CounterType::Counter { ts: ((ats + bts) / 2) as u64, value: (av + bv) as i64 }),
        spec_merge(
            CounterType::Counter { ts: ats, value: av },
            CounterType::Counter { ts: bts, value: bv },
        )->Counter_value == av + bv,
        spec_merge(
            CounterType::Counter { ts: ats, value: av },
            CounterType::Counter { ts: bts, value: bv },
        )->Counter_value == spec_merge(
            CounterType::Counter { ts: bts, value: bv },
            CounterType::Counter { ts: ats, value: av },
        )->Counter_value,
{
}

/// Merge law for a pair of gauges: the result is exactly the widened range
/// with summed hits and totals, as long as neither sum saturates.
pub proof fn lemma_merge_gauge_pair(
    amin: i64,
    amax: i64,
    ah: u64,
    at: i64,
    bmin: i64,
    bmax: i64,
    bh: u64,
    bt: i64,
)
    requires
        ah + bh <= crate::util::u64_max(),
        crate::util::i64_min() <= at + bt <= crate::util::i64_max(),
    ensures
        spec_merge(
            CounterType::Gauge { min: amin, max: amax, hits: ah, total: at },
            CounterType::Gauge { min: bmin, max: bmax, hits: bh, total: bt },
        ) == (CounterType::Gauge {
            min: if amin <= bmin {
                amin
            } else {
                bmin
            },
            max: if amax >= bmax {
                amax
            } else {
                bmax
            },
            hits: (ah + bh) as u64,
            total: (at + bt) as i64,
        }),
{
}


/// Merging counters is associative on values when no sum saturates;
/// timestamps are averaged and excluded.
pub proof fn lemma_merge_counter_assoc(a: CounterType, b: CounterType, c: CounterType)
    requires
        a is Counter && b is Counter && c is Counter,
        crate::util::i64_min() <= a->Counter_value + b->Counter_value <= crate::util::i64_max(),
        crate::util::i64_min() <= b->Counter_value + c->Counter_value <= crate::util::i64_max(),
        crate::util::i64_min() <= a->Counter_value + b->Counter_value + c->Counter_value
            <= crate::util::i64_max(),
    ensures
        spec_merge(spec_merge(a, b), c)->Counter_value == spec_merge(
            a,
            spec_merge(b, c),
        )->Counter_value,
        spec_merge(spec_merge(a, b), c)->Counter_value == a->Counter_value + b->Counter_value
            + c->Counter_value,
{
}

/// The smallest gauge minimum over a run of gauges.
pub open spec fn gauges_min(gs: Seq<CounterType>) -> int
    decreases gs.len(),
{
    if gs.len() <= 1 {
        gs[0]->Gauge_min as int
    } else {
        let rest = gauges_min(gs.drop_last());
        if rest <= gs.last()->Gauge_min {
            rest
        } else {
            gs.last()->Gauge_min as int
        }
    }
}

/// The largest gauge maximum over a run of gauges.
pub open spec fn gauges_max(gs: Seq<CounterType>) -> int
    decreases gs.len(),
{
    if gs.len() <= 1 {
        gs[0]->Gauge_max as int
    } else {
        let rest = gauges_max(gs.drop_last());
        if rest >= gs.last()->Gauge_max {
            rest
        } else {
            gs.last()->Gauge_max as int
        }
    }
}

/// The hits over a run of gauges, summed.
pub open spec fn gauges_hits(gs: Seq<CounterType>) -> int
    decreases gs.len(),
{
    if gs.len() == 0 {
        0
    } else {
        gauges_hits(gs.drop_last()) + gs.last()->Gauge_hits
    }
}

/// The totals over a run of gauges, summed.
pub open spec fn gauges_total(gs: Seq<CounterType>) -> int
    decreases gs.len(),
{
    if gs.len() == 0 {
        0
    } else {
        gauges_total(gs.drop_last()) + gs.last()->Gauge_total
    }
}

/// A non-empty run of gauges merged left to right.
pub open spec fn merge_gauges(gs: Seq<CounterType>) -> CounterType
    decreases gs.len(),
{
    if gs.len() <= 1 {
        gs[0]
    } else {
        spec_merge(merge_gauges(gs.drop_last()), gs.last())
    }
}

/// Merge law for gauges: repeatedly merging a non-empty run of gauges
/// yields the smallest minimum, the largest maximum, and the summed hits
/// and totals, as long as no sum saturates.
pub proof fn lemma_merge_gauge_seq(gs: Seq<CounterType>)
    requires
        gs.len() >= 1,
        forall|i: int| 0 <= i < gs.len() ==> (#[trigger] gs[i]) is Gauge,
        forall|i: int|
            0 <= i < gs.len() ==> 0 <= (#[trigger] gs[i])->Gauge_total,
        gauges_hits(gs) <= crate::util::u64_max(),
        gauges_total(gs) <= crate::util::i64_max(),
    ensures
        merge_gauges(gs) == (CounterType::Gauge {
            min: gauges_min(gs) as i64,
            max: gauges_max(gs) as i64,
            hits: gauges_hits(gs) as u64,
            total: gauges_total(gs) as i64,
        }),
        crate::util::i64_min() <= gauges_min(gs) <= crate::util::i64_max(),
        crate::util::i64_min() <= gauges_max(gs) <= crate::util::i64_max(),
        0 <= gauges_hits(gs),
        0 <= gauges_total(gs),
    decreases gs.len(),
{
    if gs.len() == 1 {
        assert(gs.drop_last().len() == 0);
        assert(gauges_hits(gs.drop_last()) == 0);
        assert(gauges_total(gs.drop_last()) == 0);
        assert(gs.last() == gs[0]);
        assert(gauges_hits(gs) == gs[0]->Gauge_hits);
        assert(gauges_total(gs) == gs[0]->Gauge_total);
        assert(merge_gauges(gs) == gs[0]);
    } else {
        assert(forall|i: int|
            0 <= i < gs.drop_last().len() ==> gs.drop_last()[i] == gs[i]);
        assert(gauges_hits(gs) == gauges_hits(gs.drop_last()) + gs.last()->Gauge_hits);
        assert(gauges_total(gs) == gauges_total(gs.drop_last()) + gs.last()->Gauge_total);
        assert(gauges_hits(gs.drop_last()) >= 0) by {
            lemma_gauges_hits_nonneg(gs.drop_last());
        }
        assert(gauges_total(gs.drop_last()) >= 0) by {
            lemma_gauges_total_nonneg(gs.drop_last());
        }
        lemma_merge_gauge_seq(gs.drop_last());
        assert(merge_gauges(gs) == spec_merge(merge_gauges(gs.drop_last()), gs.last()));
    }
}

/// Hits never go negative.
/// Merge law for gauges of either sign: repeatedly merging a non-empty run
/// of gauges yields the smallest minimum, the largest maximum, and the
/// summed hits and totals, as long as no partial sum saturates.
pub proof fn lemma_merge_gauge_seq_signed(gs: Seq<CounterType>)
    requires
        gs.len() >= 1,
        forall|i: int| 0 <= i < gs.len() ==> (#[trigger] gs[i]) is Gauge,
        gauges_hits(gs) <= crate::util::u64_max(),
        forall|k: int|
            1 <= k <= gs.len() ==> crate::util::i64_min() <= #[trigger] gauges_total(gs.take(k))
                <= crate::util::i64_max(),
    ensures
        merge_gauges(gs) == (CounterType::Gauge {
            min: gauges_min(gs) as i64,
            max: gauges_max(gs) as i64,
            hits: gauges_hits(gs) as u64,
            total: gauges_total(gs) as i64,
        }),
        crate::util::i64_min() <= gauges_min(gs) <= crate::util::i64_max(),
        crate::util::i64_min() <= gauges_max(gs) <= crate::util::i64_max(),
    decreases gs.len(),
{
    lemma_gauges_hits_nonneg(gs);
    if gs.len() == 1 {
        assert(gs.drop_last().len() == 0);
        assert(gauges_hits(gs.drop_last()) == 0);
        assert(gauges_total(gs.drop_last()) == 0);
        assert(gs.last() == gs[0]);
        assert(gauges_hits(gs) == gs[0]->Gauge_hits);
        assert(gauges_total(gs) == gs[0]->Gauge_total);
        assert(merge_gauges(gs) == gs[0]);
    } else {
        let u = gs.drop_last();
        assert(forall|i: int| 0 <= i < u.len() ==> u[i] == gs[i]);
        assert(gauges_hits(gs) == gauges_hits(u) + gs.last()->Gauge_hits);
        assert(gauges_total(gs) == gauges_total(u) + gs.last()->Gauge_total);
        lemma_gauges_hits_nonneg(u);
        assert forall|k: int|
            1 <= k <= u.len() implies crate::util::i64_min() <= #[trigger] gauges_total(u.take(k))
                <= crate::util::i64_max() by {
            assert(u.take(k) =~= gs.take(k));
        }
        lemma_merge_gauge_seq_signed(u);
        assert(merge_gauges(gs) == spec_merge(merge_gauges(u), gs.last()));
        assert(gs.take(gs.len() as int) =~= gs);
        assert(gs.take(u.len() as int) =~= u);
        assert(crate::util::i64_min() <= gauges_total(u) <= crate::util::i64_max());
        assert(crate::util::i64_min() <= gauges_total(gs) <= crate::util::i64_max());
    }
}

proof fn lemma_gauges_hits_nonneg(gs: Seq<CounterType>)
    requires
        forall|i: int| 0 <= i < gs.len() ==> (#[trigger] gs[i]) is Gauge,
    ensures
        gauges_hits(gs) >= 0,
    decreases gs.len(),
{
    if gs.len() > 0 {
        assert(forall|i: int|
            0 <= i < gs.drop_last().len() ==> gs.drop_last()[i] == gs[i]);
        lemma_gauges_hits_nonneg(gs.drop_last());
    }
}

/// Non-negative totals sum to a non-negative total.
proof fn lemma_gauges_total_nonneg(gs: Seq<CounterType>)
    requires
        forall|i: int| 0 <= i < gs.len() ==> (#[trigger] gs[i]) is Gauge,
        forall|i: int| 0 <= i < gs.len() ==> 0 <= (#[trigger] gs[i])->Gauge_total,
    ensures
        gauges_total(gs) >= 0,
    decreases gs.len(),
{
    if gs.len() > 0 {
        assert(forall|i: int|
            0 <= i < gs.drop_last().len() ==> gs.drop_last()[i] == gs[i]);
        lemma_gauges_total_nonneg(gs.drop_last());
    }
}

} // verus!
