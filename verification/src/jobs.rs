//! Job descriptions and job profiles: the unit the registry tracks, the
//! snapshot a terminating job leaves behind, and the arithmetic on profiles
//! that the proxy-to-proxy scrape path relies on.

use vstd::prelude::*;

use crate::counters::{same_variant, spec_delta, spec_merge, CounterType};
use crate::errors::ProxyErr;
use crate::names::{contains_char, prefix_before, str_contains_char, str_eq, str_prefix_before};
use crate::snapshot::{find_name, lemma_find_name, names_unique, CounterSnapshot};

verus! {

/// Everything known about one job.
#[derive(Debug, PartialEq)]
pub struct JobDesc {
    pub jobid: String,
    pub command: String,
    pub size: i32,
    pub nodelist: String,
    pub partition: String,
    pub cluster: String,
    pub run_dir: String,
    pub start_time: u64,
    pub end_time: u64,
}

/// The mathematical shape of a job description: its strings as character
/// sequences.
#[verifier::ext_equal]
pub struct DescView {
    pub jobid: Seq<char>,
    pub command: Seq<char>,
    pub size: i32,
    pub nodelist: Seq<char>,
    pub partition: Seq<char>,
    pub cluster: Seq<char>,
    pub run_dir: Seq<char>,
    pub start_time: u64,
    pub end_time: u64,
}

impl View for JobDesc {
    type V = DescView;

    /// A description is, for specification purposes, its shape.
    open spec fn view(&self) -> DescView {
        DescView {
            jobid: self.jobid@,
            command: self.command@,
            size: self.size,
            nodelist: self.nodelist@,
            partition: self.partition@,
            cluster: self.cluster@,
            run_dir: self.run_dir@,
            start_time: self.start_time,
            end_time: self.end_time,
        }
    }
}

impl Clone for JobDesc {
    /// An equal copy of this description.
    fn clone(&self) -> (r: Self)
        ensures
            r == *self,
    {
        JobDesc {
            jobid: self.jobid.clone(),
            command: self.command.clone(),
            size: self.size,
            nodelist: self.nodelist.clone(),
            partition: self.partition.clone(),
            cluster: self.cluster.clone(),
            run_dir: self.run_dir.clone(),
            start_time: self.start_time,
            end_time: self.end_time,
        }
    }
}

impl JobDesc {
    /// Fold another description of the same job into this one: identifiers
    /// and sizes must agree; the run spans both intervals.
    pub fn merge(&mut self, other_desc: JobDesc) -> (r: Result<(), ProxyErr>)
        ensures
            r is Ok <==> old(self).jobid@ == other_desc.jobid@ && old(self).size
                == other_desc.size,
            r is Ok ==> final(self).start_time == if old(self).start_time
                <= other_desc.start_time {
                old(self).start_time
            } else {
                other_desc.start_time
            } && final(self).end_time == if old(self).end_time >= other_desc.end_time {
                old(self).end_time
            } else {
                other_desc.end_time
            } && final(self).jobid == old(self).jobid && final(self).command == old(self).command
                && final(self).size == old(self).size && final(self).nodelist == old(self).nodelist
                && final(self).partition == old(self).partition && final(self).cluster
                == old(self).cluster && final(self).run_dir == old(self).run_dir,
            r is Err ==> *final(self) == *old(self),
    {
        if !str_eq(self.jobid.as_str(), other_desc.jobid.as_str()) {
            return Err(ProxyErr::new("Mismatching job ids"));
        }
        if self.size != other_desc.size {
            return Err(ProxyErr::new("Mismatching sizes id"));
        }
        if other_desc.start_time < self.start_time {
            self.start_time = other_desc.start_time;
        }
        if other_desc.end_time > self.end_time {
            self.end_time = other_desc.end_time;
        }
        Ok(())
    }
}

/// The job identifier derived from the batch scheduler's environment: the
/// first candidate that is set, with the step appended after a dash, and any
/// trailing rank suffix after a dot stripped.
pub open spec fn derived_jobid(base: Seq<char>, step: Option<Seq<char>>) -> Seq<char> {
    let with_step = match step {
        Some(s) => base + seq!['-'] + s,
        None => base,
    };
    if contains_char(with_step, '.') {
        prefix_before(with_step, '.')
    } else {
        with_step
    }
}

/// Build the job identifier from the scheduler-provided values, in priority
/// order; an empty result means "no real job".
pub fn derive_jobid(
    proxy_job_id: Option<String>,
    slurm_jobid: Option<String>,
    pmix_id: Option<String>,
    launcher_ppid: Option<String>,
    slurm_step_id: Option<String>,
) -> (r: String)
    ensures
        ({
            let base = if proxy_job_id is Some {
                proxy_job_id->0@
            } else if slurm_jobid is Some {
                slurm_jobid->0@
            } else if pmix_id is Some {
                pmix_id->0@
            } else if launcher_ppid is Some {
                launcher_ppid->0@
            } else {
                Seq::<char>::empty()
            };
            let step = match slurm_step_id {
                Some(s) => Some(s@),
                None => None,
            };
            r@ == derived_jobid(base, step)
        }),
{
    let ghost gbase = if proxy_job_id is Some {
        proxy_job_id->0@
    } else if slurm_jobid is Some {
        slurm_jobid->0@
    } else if pmix_id is Some {
        pmix_id->0@
    } else if launcher_ppid is Some {
        launcher_ppid->0@
    } else {
        Seq::<char>::empty()
    };
    let mut jobid = if let Some(v) = proxy_job_id {
        v
    } else if let Some(v) = slurm_jobid {
        v
    } else if let Some(v) = pmix_id {
        v
    } else if let Some(v) = launcher_ppid {
        v
    } else {
        String::new()
    };
    proof {
        assert(jobid@ =~= gbase);
    }
    let ghost gstep: Option<Seq<char>> = if slurm_step_id is Some {
        Some(slurm_step_id->0@)
    } else {
        None
    };
    if let Some(step) = slurm_step_id {
        jobid.append("-");
        jobid.append(step.as_str());
        proof {
            reveal_strlit("-");
            assert(jobid@ =~= gbase + seq!['-'] + gstep->0);
        }
    }
    if str_contains_char(jobid.as_str(), '.') {
        let r = str_prefix_before(jobid.as_str(), '.');
        proof {
            assert(r@ == derived_jobid(gbase, gstep));
        }
        r
    } else {
        jobid
    }
}

/// One entry of `prev` applied to a profile's counters for the merge pass:
/// an existing name is merged, a new one is appended.
pub open spec fn merge_one(cs: Seq<CounterSnapshot>, c: CounterSnapshot) -> Seq<CounterSnapshot> {
    let i = find_name(cs, c.name@);
    if i >= 0 {
        cs.update(
            i,
            CounterSnapshot {
                name: cs[i].name,
                doc: cs[i].doc,
                ctype: spec_merge(cs[i].ctype, c.ctype),
            },
        )
    } else {
        cs.push(c)
    }
}

/// All of `other` merged into `cs`, left to right.
pub open spec fn apply_merges(cs: Seq<CounterSnapshot>, other: Seq<CounterSnapshot>) -> Seq<
    CounterSnapshot,
>
    decreases other.len(),
{
    if other.len() == 0 {
        cs
    } else {
        merge_one(apply_merges(cs, other.drop_last()), other.last())
    }
}

/// Every merge step lands on a counter of the same variant.
pub open spec fn merges_ok(cs: Seq<CounterSnapshot>, other: Seq<CounterSnapshot>) -> bool
    decreases other.len(),
{
    if other.len() == 0 {
        true
    } else {
        let prev = apply_merges(cs, other.drop_last());
        let i = find_name(prev, other.last().name@);
        merges_ok(cs, other.drop_last()) && (i >= 0 ==> same_variant(
            prev[i].ctype,
            other.last().ctype,
        ))
    }
}

/// One entry of `prev` applied to a profile's counters for the subtraction
/// pass: an existing name has the previous value subtracted, a new one is
/// appended.
pub open spec fn delta_one(cs: Seq<CounterSnapshot>, c: CounterSnapshot) -> Seq<CounterSnapshot> {
    let i = find_name(cs, c.name@);
    if i >= 0 {
        cs.update(
            i,
            CounterSnapshot {
                name: cs[i].name,
                doc: cs[i].doc,
                ctype: spec_delta(cs[i].ctype, c.ctype),
            },
        )
    } else {
        cs.push(c)
    }
}

/// All of `prev` subtracted from `cs`, left to right.
pub open spec fn apply_deltas(cs: Seq<CounterSnapshot>, prev: Seq<CounterSnapshot>) -> Seq<
    CounterSnapshot,
>
    decreases prev.len(),
{
    if prev.len() == 0 {
        cs
    } else {
        delta_one(apply_deltas(cs, prev.drop_last()), prev.last())
    }
}

/// Every subtraction step lands on a counter of the same variant.
pub open spec fn deltas_ok(cs: Seq<CounterSnapshot>, prev: Seq<CounterSnapshot>) -> bool
    decreases prev.len(),
{
    if prev.len() == 0 {
        true
    } else {
        let cur = apply_deltas(cs, prev.drop_last());
        let i = find_name(cur, prev.last().name@);
        deltas_ok(cs, prev.drop_last()) && (i >= 0 ==> same_variant(
            cur[i].ctype,
            prev.last().ctype,
        ))
    }
}

/// Merge feasibility of a whole list implies it for every prefix.
pub proof fn lemma_merges_ok_prefix(cs: Seq<CounterSnapshot>, other: Seq<CounterSnapshot>, i: int)
    requires
        0 <= i <= other.len(),
        merges_ok(cs, other),
    ensures
        merges_ok(cs, other.take(i)),
    decreases other.len(),
{
    if i < other.len() {
        assert(other.drop_last().take(i) =~= other.take(i));
        lemma_merges_ok_prefix(cs, other.drop_last(), i);
    } else {
        assert(other.take(i) =~= other);
    }
}

/// Subtraction feasibility of a whole list implies it for every prefix.
pub proof fn lemma_deltas_ok_prefix(cs: Seq<CounterSnapshot>, prev: Seq<CounterSnapshot>, i: int)
    requires
        0 <= i <= prev.len(),
        deltas_ok(cs, prev),
    ensures
        deltas_ok(cs, prev.take(i)),
    decreases prev.len(),
{
    if i < prev.len() {
        assert(prev.drop_last().take(i) =~= prev.take(i));
        lemma_deltas_ok_prefix(cs, prev.drop_last(), i);
    } else {
        assert(prev.take(i) =~= prev);
    }
}

/// One counter with its gauge range widened; counters are untouched.
pub open spec fn reset_range_of(c: CounterSnapshot) -> CounterSnapshot {
    match c.ctype {
        CounterType::Counter { .. } => c,
        CounterType::Gauge { min: _, max: _, hits, total } => CounterSnapshot {
            name: c.name,
            doc: c.doc,
            ctype: CounterType::Gauge {
                min: i64::MAX as i64,
                max: i64::MIN as i64,
                hits,
                total,
            },
        },
    }
}

/// A job profile: the description and the final value of every counter.
#[derive(Debug, PartialEq)]
pub struct JobProfile {
    pub desc: JobDesc,
    pub counters: Vec<CounterSnapshot>,
}

impl Clone for JobProfile {
    /// An equal copy of this profile.
    fn clone(&self) -> (r: Self)
        ensures
            r.desc == self.desc,
            r.counters@ == self.counters@,
    {
        let mut counters: Vec<CounterSnapshot> = Vec::new();
        let n = self.counters.len();
        let mut i: usize = 0;
        while i < n
            invariant
                n == self.counters@.len(),
                0 <= i <= n,
                counters@ =~= self.counters@.take(i as int),
            decreases n - i,
        {
            counters.push(self.counters[i].clone());
            i = i + 1;
        }
        proof {
            assert(self.counters@.take(n as int) =~= self.counters@);
        }
        JobProfile { desc: self.desc.clone(), counters }
    }
}

impl JobProfile {
    /// Merge another profile of the same job into this one: the descriptions
    /// are folded together and every counter of `other_prof` is merged in,
    /// appearing as new when this profile does not carry its name yet.
    /// Fails when the jobs differ or a shared counter changes variant.
    pub fn merge(&mut self, other_prof: JobProfile) -> (r: Result<(), ProxyErr>)
        ensures
            r is Ok ==> final(self).counters@ == apply_merges(
                old(self).counters@,
                other_prof.counters@,
            ) && merges_ok(old(self).counters@, other_prof.counters@),
            r is Ok ==> old(self).desc.jobid@ == other_prof.desc.jobid@ && old(self).desc.size
                == other_prof.desc.size && final(self).desc.jobid == old(self).desc.jobid
                && final(self).desc.command == old(self).desc.command && final(self).desc.size
                == old(self).desc.size && final(self).desc.start_time == if old(
                self,
            ).desc.start_time <= other_prof.desc.start_time {
                old(self).desc.start_time
            } else {
                other_prof.desc.start_time
            } && final(self).desc.end_time == if old(self).desc.end_time
                >= other_prof.desc.end_time {
                old(self).desc.end_time
            } else {
                other_prof.desc.end_time
            },
            // A description mismatch aborts before any counter is touched; a
            // mid-merge variant mismatch leaves the counters of a processed
            // prefix merged.
            r is Err && !(old(self).desc.jobid@ == other_prof.desc.jobid@ && old(self).desc.size
                == other_prof.desc.size) ==> final(self).desc == old(self).desc
                && final(self).counters@ == old(self).counters@,
            r is Err && old(self).desc.jobid@ == other_prof.desc.jobid@ && old(self).desc.size
                == other_prof.desc.size ==> !merges_ok(old(self).counters@, other_prof.counters@)
                && (exists|k: int|
                0 <= k <= other_prof.counters@.len() && final(self).counters@ == apply_merges(
                    old(self).counters@,
                    #[trigger] other_prof.counters@.take(k),
                )),
    {
        self.desc.merge(other_prof.desc)?;
        proof {
            assert(old(self).desc.jobid@ == other_prof.desc.jobid@ && old(self).desc.size
                == other_prof.desc.size);
        }
        let ghost desc_merged = self.desc;
        let n = other_prof.counters.len();
        let mut i: usize = 0;
        while i < n
            invariant
                n == other_prof.counters@.len(),
                0 <= i <= n,
                self.counters@ == apply_merges(
                    old(self).counters@,
                    other_prof.counters@.take(i as int),
                ),
                merges_ok(old(self).counters@, other_prof.counters@.take(i as int)),
                self.desc == desc_merged,
                self.desc.jobid == old(self).desc.jobid,
                old(self).desc.jobid@ == other_prof.desc.jobid@,
                old(self).desc.size == other_prof.desc.size,
            decreases n - i,
        {
            let c = &other_prof.counters[i];
            proof {
                let t1 = other_prof.counters@.take(i + 1 as int);
                assert(t1.drop_last() =~= other_prof.counters@.take(i as int));
                assert(t1.last() == other_prof.counters@[i as int]);
                lemma_find_name(self.counters@, c.name@);
            }
            let idx = Self::find(&self.counters, c.name.as_str());
            if idx < self.counters.len() {
                let tgt = &mut self.counters[idx];
                // An equal-variant merge cannot fail; a mismatch aborts.
                match tgt.merge(c) {
                    Ok(()) => {},
                    Err(e) => {
                        proof {
                            let t1 = other_prof.counters@.take(i + 1 as int);
                            assert(!merges_ok(old(self).counters@, t1));
                            if merges_ok(old(self).counters@, other_prof.counters@) {
                                lemma_merges_ok_prefix(
                                    old(self).counters@,
                                    other_prof.counters@,
                                    i + 1,
                                );
                            }
                            assert(exists|k: int|
                                0 <= k <= other_prof.counters@.len() && self.counters@
                                    == apply_merges(
                                    old(self).counters@,
                                    #[trigger] other_prof.counters@.take(k),
                                )) by {
                                assert(self.counters@ == apply_merges(
                                    old(self).counters@,
                                    other_prof.counters@.take(i as int),
                                ));
                            }
                        }
                        return Err(e);
                    },
                }
                proof {
                    assert(self.counters@ =~= merge_one(
                        apply_merges(old(self).counters@, other_prof.counters@.take(i as int)),
                        other_prof.counters@[i as int],
                    ));
                }
            } else {
                self.counters.push(c.clone());
                proof {
                    assert(self.counters@ =~= merge_one(
                        apply_merges(old(self).counters@, other_prof.counters@.take(i as int)),
                        other_prof.counters@[i as int],
                    ));
                }
            }
            i = i + 1;
        }
        proof {
            assert(other_prof.counters@.take(n as int) =~= other_prof.counters@);
        }
        Ok(())
    }

    /// Subtract a previous profile of the same job, so that the counters of
    /// this profile become increments since `previous` was taken; a counter
    /// only `previous` carries is adopted as is.  Fails when a shared
    /// counter changes variant, and then changes nothing.
    pub fn substract(&mut self, previous: &JobProfile) -> (r: Result<(), ProxyErr>)
        ensures
            r is Ok <==> deltas_ok(old(self).counters@, previous.counters@),
            r is Ok ==> final(self).counters@ == apply_deltas(
                old(self).counters@,
                previous.counters@,
            ),
            r is Err ==> final(self).counters@ == old(self).counters@,
            final(self).desc == old(self).desc,
    {
        // Keep a copy so a mid-way variant mismatch aborts whole.
        let mut saved: Vec<CounterSnapshot> = Vec::new();
        let sn = self.counters.len();
        let mut si: usize = 0;
        while si < sn
            invariant
                sn == self.counters@.len(),
                0 <= si <= sn,
                self.counters@ == old(self).counters@,
                self.desc == old(self).desc,
                saved@ =~= self.counters@.take(si as int),
            decreases sn - si,
        {
            saved.push(self.counters[si].clone());
            proof {
                assert(saved@ =~= self.counters@.take(si + 1 as int));
            }
            si = si + 1;
        }
        proof {
            assert(self.counters@.take(sn as int) =~= self.counters@);
        }
        let n = previous.counters.len();
        let mut i: usize = 0;
        while i < n
            invariant
                n == previous.counters@.len(),
                0 <= i <= n,
                saved@ == old(self).counters@,
                self.counters@ == apply_deltas(
                    old(self).counters@,
                    previous.counters@.take(i as int),
                ),
                deltas_ok(old(self).counters@, previous.counters@.take(i as int)),
                self.desc == old(self).desc,
            decreases n - i,
        {
            let c = &previous.counters[i];
            proof {
                let t1 = previous.counters@.take(i + 1 as int);
                assert(t1.drop_last() =~= previous.counters@.take(i as int));
                assert(t1.last() == previous.counters@[i as int]);
                lemma_find_name(self.counters@, c.name@);
            }
            let idx = Self::find(&self.counters, c.name.as_str());
            if idx < self.counters.len() {
                let tgt = &mut self.counters[idx];
                match tgt.delta(c) {
                    Ok(()) => {},
                    Err(e) => {
                        proof {
                            let t1 = previous.counters@.take(i + 1 as int);
                            assert(!deltas_ok(old(self).counters@, t1));
                            if deltas_ok(old(self).counters@, previous.counters@) {
                                lemma_deltas_ok_prefix(
                                    old(self).counters@,
                                    previous.counters@,
                                    i + 1,
                                );
                            }
                        }
                        self.counters = saved;
                        return Err(e);
                    },
                }
                proof {
                    assert(self.counters@ =~= delta_one(
                        apply_deltas(old(self).counters@, previous.counters@.take(i as int)),
                        previous.counters@[i as int],
                    ));
                }
            } else {
                self.counters.push(c.clone());
                proof {
                    assert(self.counters@ =~= delta_one(
                        apply_deltas(old(self).counters@, previous.counters@.take(i as int)),
                        previous.counters@[i as int],
                    ));
                }
            }
            i = i + 1;
        }
        proof {
            assert(previous.counters@.take(n as int) =~= previous.counters@);
        }
        Ok(())
    }

    /// Widen every gauge's range so the next merge re-learns it.
    pub fn reset_ranges(&mut self)
        ensures
            final(self).counters@ =~= old(self).counters@.map_values(|c: CounterSnapshot| reset_range_of(c)),
            final(self).desc == old(self).desc,
    {
        let n = self.counters.len();
        let mut i: usize = 0;
        while i < n
            invariant
                n == self.counters@.len(),
                0 <= i <= n,
                self.counters@.len() == old(self).counters@.len(),
                self.desc == old(self).desc,
                forall|j: int| i <= j < n ==> self.counters@[j] == old(self).counters@[j],
                forall|j: int|
                    0 <= j < i ==> self.counters@[j] == reset_range_of(#[trigger] old(self).counters@[j]),
            decreases n - i,
        {
            let tgt = &mut self.counters[i];
            match tgt.ctype {
                CounterType::Gauge { min: _, max: _, hits, total } => {
                    tgt.ctype = CounterType::Gauge { min: i64::MAX, max: i64::MIN, hits, total };
                },
                CounterType::Counter { .. } => {},
            }
            i = i + 1;
        }
    }

    /// Index of the counter carrying `name`, or the length when none does.
    pub fn find(counters: &Vec<CounterSnapshot>, name: &str) -> (r: usize)
        ensures
            find_name(counters@, name@) >= 0 ==> r == find_name(counters@, name@),
            find_name(counters@, name@) < 0 ==> r == counters@.len(),
    {
        let n = counters.len();
        let mut i: usize = 0;
        proof {
            lemma_find_name(counters@, name@);
        }
        while i < n
            invariant
                n == counters@.len(),
                0 <= i <= n,
                forall|j: int| 0 <= j < i ==> counters@[j].name@ != name@,
                find_name(counters@, name@) >= 0 ==> i <= find_name(counters@, name@),
            decreases n - i,
        {
            if str_eq(counters[i].name.as_str(), name) {
                proof {
                    lemma_find_name(counters@, name@);
                }
                return i;
            }
            i = i + 1;
            proof {
                lemma_find_name(counters@, name@);
            }
        }
        proof {
            lemma_find_name(counters@, name@);
        }
        n
    }

    /// True when this profile carries a counter named `name`.
    pub fn contains(&self, name: &str) -> (r: bool)
        ensures
            r == (find_name(self.counters@, name@) >= 0),
    {
        let i = Self::find(&self.counters, name);
        proof {
            lemma_find_name(self.counters@, name@);
        }
        i < self.counters.len()
    }

    /// The counter named `name`, when this profile carries one.
    pub fn get(&self, name: &str) -> (r: Option<CounterSnapshot>)
        ensures
            find_name(self.counters@, name@) >= 0 ==> r is Some && r->0 == self.counters@[find_name(
                self.counters@,
                name@,
            )],
            find_name(self.counters@, name@) < 0 ==> r is None,
    {
        let i = Self::find(&self.counters, name);
        proof {
            lemma_find_name(self.counters@, name@);
        }
        if i < self.counters.len() {
            Some(self.counters[i].clone())
        } else {
            None
        }
    }

    /// A job ran to completion when its start and finish markers agree.
    pub fn did_complete(&self) -> (r: bool)
        ensures
            r == {
                let s = find_name(self.counters@, "has_started"@);
                let e = find_name(self.counters@, "has_finished"@);
                s >= 0 && e >= 0 && self.counters@[s].ctype->Counter_value
                    == self.counters@[e].ctype->Counter_value && self.counters@[s].ctype is Counter
                    && self.counters@[e].ctype is Counter
            },
    {
        let start = self.get("has_started");
        let end = self.get("has_finished");
        if let (Some(start), Some(end)) = (start, end) {
            match (start.ctype, end.ctype) {
                (
                    CounterType::Counter { ts: _, value: sv },
                    CounterType::Counter { ts: _, value: ev },
                ) => sv == ev,
                _ => false,
            }
        } else {
            false
        }
    }
}


/// The two profiles line up entry by entry: the same counter names in the
/// same places.
pub open spec fn aligned(a: Seq<CounterSnapshot>, b: Seq<CounterSnapshot>) -> bool {
    a.len() == b.len() && forall|i: int| 0 <= i < a.len() ==> a[i].name@ == #[trigger] b[i].name@
}

/// Subtracting an aligned previous profile updates each entry in place.
proof fn lemma_apply_deltas_aligned(cs: Seq<CounterSnapshot>, prev: Seq<CounterSnapshot>, k: int)
    requires
        names_unique(cs),
        prev.len() <= cs.len(),
        forall|i: int| 0 <= i < prev.len() ==> prev[i].name@ == #[trigger] cs[i].name@,
        0 <= k <= prev.len(),
    ensures
        apply_deltas(cs, prev.take(k)).len() == cs.len(),
        forall|i: int|
            0 <= i < cs.len() ==> (#[trigger] apply_deltas(cs, prev.take(k))[i]).name@
                == cs[i].name@,
        forall|i: int|
            k <= i < cs.len() ==> #[trigger] apply_deltas(cs, prev.take(k))[i] == cs[i],
        forall|i: int|
            0 <= i < k ==> (#[trigger] apply_deltas(cs, prev.take(k))[i]).ctype == spec_delta(
                cs[i].ctype,
                prev[i].ctype,
            ),
    decreases k,
{
    if k == 0 {
        assert(prev.take(0) =~= Seq::<CounterSnapshot>::empty());
    } else {
        lemma_apply_deltas_aligned(cs, prev, k - 1);
        let t1 = prev.take(k);
        assert(t1.drop_last() =~= prev.take(k - 1));
        assert(t1.last() == prev[k - 1]);
        let cur = apply_deltas(cs, prev.take(k - 1));
        lemma_find_name(cur, prev[k - 1].name@);
        assert(cur[k - 1].name@ == cs[k - 1].name@);
        assert(forall|i: int|
            0 <= i < cs.len() && i != k - 1 ==> (#[trigger] cur[i]).name@ != prev[k - 1].name@);
        assert(find_name(cur, prev[k - 1].name@) == k - 1);
    }
}

/// Merging an aligned previous profile back updates each entry in place.
proof fn lemma_apply_merges_aligned(cs: Seq<CounterSnapshot>, other: Seq<CounterSnapshot>, k: int)
    requires
        names_unique(cs),
        other.len() <= cs.len(),
        forall|i: int| 0 <= i < other.len() ==> other[i].name@ == #[trigger] cs[i].name@,
        0 <= k <= other.len(),
    ensures
        apply_merges(cs, other.take(k)).len() == cs.len(),
        forall|i: int|
            0 <= i < cs.len() ==> (#[trigger] apply_merges(cs, other.take(k))[i]).name@
                == cs[i].name@,
        forall|i: int|
            k <= i < cs.len() ==> #[trigger] apply_merges(cs, other.take(k))[i] == cs[i],
        forall|i: int|
            0 <= i < k ==> (#[trigger] apply_merges(cs, other.take(k))[i]).ctype == spec_merge(
                cs[i].ctype,
                other[i].ctype,
            ),
    decreases k,
{
    if k == 0 {
        assert(other.take(0) =~= Seq::<CounterSnapshot>::empty());
    } else {
        lemma_apply_merges_aligned(cs, other, k - 1);
        let t1 = other.take(k);
        assert(t1.drop_last() =~= other.take(k - 1));
        assert(t1.last() == other[k - 1]);
        let cur = apply_merges(cs, other.take(k - 1));
        lemma_find_name(cur, other[k - 1].name@);
        assert(cur[k - 1].name@ == cs[k - 1].name@);
        assert(forall|i: int|
            0 <= i < cs.len() && i != k - 1 ==> (#[trigger] cur[i]).name@ != other[k - 1].name@);
        assert(find_name(cur, other[k - 1].name@) == k - 1);
    }
}

/// Subtract idempotence: for aligned profiles of one job whose counters
/// satisfy `0 <= a <= b` pointwise, subtracting the earlier profile and
/// merging it back reproduces the later profile's counter values.
pub proof fn lemma_subtract_idempotent(b: Seq<CounterSnapshot>, a: Seq<CounterSnapshot>)
    requires
        names_unique(b),
        aligned(a, b),
        forall|i: int|
            0 <= i < b.len() ==> (#[trigger] b[i]).ctype is Counter && a[i].ctype is Counter,
        forall|i: int|
            0 <= i < b.len() ==> 0 <= (#[trigger] a[i]).ctype->Counter_value
                <= b[i].ctype->Counter_value,
    ensures
        apply_merges(apply_deltas(b, a), a).len() == b.len(),
        forall|i: int|
            0 <= i < b.len() ==> (#[trigger] apply_merges(apply_deltas(b, a), a)[i]).ctype->Counter_value
                == b[i].ctype->Counter_value,
{
    lemma_apply_deltas_aligned(b, a, a.len() as int);
    assert(a.take(a.len() as int) =~= a);
    let mid = apply_deltas(b, a);
    assert(names_unique(mid));
    assert(forall|i: int| 0 <= i < a.len() ==> a[i].name@ == #[trigger] mid[i].name@);
    lemma_apply_merges_aligned(mid, a, a.len() as int);
    assert forall|i: int| 0 <= i < b.len() implies (#[trigger] apply_merges(
        mid,
        a,
    )[i]).ctype->Counter_value == b[i].ctype->Counter_value by {
        assert(mid[i].ctype == spec_delta(b[i].ctype, a[i].ctype));
        assert(apply_merges(mid, a)[i].ctype == spec_merge(mid[i].ctype, a[i].ctype));
    }
}

} // verus!
