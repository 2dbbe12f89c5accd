//! The job registry: one reference-counted exporter per job, the two
//! pinned aggregate jobs, the scrape registry with its pending backbuffer,
//! and the fan-out of ingested metrics.

use vstd::prelude::*;

use crate::counters::CounterType;
use crate::errors::ProxyErr;
use crate::counters::same_variant;
use crate::exporter::{exporter_wf, groups_profile, ingested, lookup, Exporter};
use crate::jobs::{JobDesc, JobProfile};
use crate::names::{str_eq, valid_name};
use crate::scrape::{ProxyScraper, ProxyScraperSnapshot, ScraperType};
use crate::snapshot::CounterSnapshot;
use crate::trace::{trace_find, TraceView};
use crate::trace_codec::FrameView;
use crate::trace_codec::field_bound;

verus! {

/// One job's exporter together with its reference count.
pub struct PerJobRefcount {
    pub desc: JobDesc,
    pub counter: u64,
    pub exporter: Exporter,
    pub islocal: bool,
}

/// Index of the entry for `jobid`, or -1 when none exists.
pub open spec fn job_find(js: Seq<PerJobRefcount>, jobid: Seq<char>) -> int
    decreases js.len(),
{
    if js.len() == 0 {
        -1
    } else if js[0].desc.jobid@ == jobid {
        0
    } else {
        let r = job_find(js.drop_first(), jobid);
        if r < 0 {
            -1
        } else {
            r + 1
        }
    }
}

/// What `job_find` returns.
pub proof fn lemma_job_find(js: Seq<PerJobRefcount>, jobid: Seq<char>)
    ensures
        job_find(js, jobid) >= 0 ==> 0 <= job_find(js, jobid) < js.len() && js[job_find(
            js,
            jobid,
        )].desc.jobid@ == jobid,
        job_find(js, jobid) < 0 ==> forall|i: int| 0 <= i < js.len() ==> js[i].desc.jobid@ != jobid,
        forall|i: int|
            0 <= i < js.len() && js[i].desc.jobid@ == jobid ==> 0 <= job_find(js, jobid) <= i,
    decreases js.len(),
{
    if js.len() > 0 {
        lemma_job_find(js.drop_first(), jobid);
        if js[0].desc.jobid@ != jobid {
            assert(forall|i: int| 1 <= i < js.len() ==> js[i] == js.drop_first()[i - 1]);
        }
    }
}

/// The identifiers of the locally created jobs, in registration order.
pub open spec fn local_ids(js: Seq<PerJobRefcount>) -> Seq<Seq<char>>
    decreases js.len(),
{
    if js.len() == 0 {
        Seq::empty()
    } else {
        local_ids(js.drop_last()) + (if js.last().islocal {
            seq![js.last().desc.jobid@]
        } else {
            Seq::empty()
        })
    }
}

/// The central pivot of the proxy: every per-job exporter (the pinned
/// aggregate jobs included), the scrape registry, its pending backbuffer
/// and the trace store.
pub struct ExporterFactory {
    pub perjob: Vec<PerJobRefcount>,
    pub scrapes: Vec<ProxyScraper>,
    pub pending_scrapes: Vec<ProxyScraper>,
    pub traces: TraceView,
    pub node_jobid: String,
    pub aggregator: bool,
    pub max_trace_size: usize,
}

/// The identifier of the fleet-wide aggregate job.
pub open spec fn main_jobid() -> Seq<char> {
    "main"@
}

impl ExporterFactory {
    /// A well-formed registry: jobs registered once, every exporter well
    /// formed, the trace store well formed, and the two aggregate jobs
    /// pinned and never attributed local metrics.
    pub open spec fn wf(&self) -> bool {
        &&& forall|i: int, j: int|
            0 <= i < j < self.perjob@.len() ==> self.perjob@[i].desc.jobid@
                != self.perjob@[j].desc.jobid@
        &&& forall|i: int| 0 <= i < self.perjob@.len() ==> exporter_wf(
            (#[trigger] self.perjob@[i]).exporter,
        )
        &&& forall|i: int|
            0 <= i < self.perjob@.len() ==> (#[trigger] self.perjob@[i]).counter >= 1
        &&& self.traces.wf()
        &&& job_find(self.perjob@, main_jobid()) >= 0
        &&& job_find(self.perjob@, self.node_jobid@) >= 0
        &&& self.node_jobid@ != main_jobid()
        &&& !self.perjob@[job_find(self.perjob@, main_jobid())].islocal
        &&& !self.perjob@[job_find(self.perjob@, self.node_jobid@)].islocal
        &&& forall|i: int, j: int|
            0 <= i < j < self.scrapes@.len() ==> self.scrapes@[i].target_url@
                != self.scrapes@[j].target_url@
    }

    /// True of the two pinned aggregate jobs.
    pub open spec fn is_sentinel(&self, jobid: Seq<char>) -> bool {
        jobid == main_jobid() || jobid == self.node_jobid@
    }

    /// Set up a registry for this node: the fleet-wide aggregate job and
    /// the per-node aggregate job are created pinned, and the host's system
    /// sampler is registered as the first scrape source.
    pub fn new(hostname: &str, aggregate: bool, max_trace_size: usize, now_us: u64) -> (r:
        ExporterFactory)
        requires
            hostname@.len() <= 4096,
        ensures
            r.wf(),
            r.aggregator == aggregate,
            r.max_trace_size == max_trace_size,
            r.perjob@.len() == 2,
            r.perjob@[0].desc.jobid@ == main_jobid(),
            r.perjob@[1].desc.jobid@ == r.node_jobid@,
            r.node_jobid@ == "Node: "@ + hostname@,
            r.scrapes@.len() == 1,
            r.scrapes@[0].ttype == ScraperType::System,
            // An aggregating proxy opens the two pinned jobs' traces at
            // birth and queues their trace-event pulls.
            aggregate ==> r.traces.traces@.len() == 2 && r.traces.traces@[0].desc.jobid@
                == main_jobid() && r.traces.traces@[1].desc.jobid@ == r.node_jobid@
                && r.pending_scrapes@.len() == 2 && r.pending_scrapes@[0].ttype is Ftio
                && r.pending_scrapes@[1].ttype is Ftio && r.pending_scrapes@[0].target_url@
                == "/FTIO/"@ + main_jobid() && r.pending_scrapes@[1].target_url@ == "/FTIO/"@
                + r.node_jobid@,
            !aggregate ==> r.traces.traces@.len() == 0 && r.pending_scrapes@.len() == 0,
    {
        let mut node_jobid = String::new();
        node_jobid.append("Node: ");
        node_jobid.append(hostname);
        proof {
            reveal_strlit("Node: ");
            reveal_strlit("main");
            assert("Node: "@ =~= seq!['N', 'o', 'd', 'e', ':', ' ']);
            assert("main"@ =~= seq!['m', 'a', 'i', 'n']);
            assert(node_jobid@[0] == 'N');
            assert(main_jobid()[0] == 'm');
            assert(node_jobid@ != main_jobid());
        }
        let main_desc = JobDesc {
            jobid: {
                let mut s = String::new();
                s.append("main");
                s
            },
            command: {
                let mut s = String::new();
                s.append("Sum of all Jobs");
                s
            },
            size: 0,
            nodelist: String::new(),
            partition: String::new(),
            cluster: String::new(),
            run_dir: String::new(),
            start_time: 0,
            end_time: 0,
        };
        let node_desc = JobDesc {
            jobid: node_jobid.clone(),
            command: {
                let mut s = String::new();
                s.append("Sum of all Jobs running on this node");
                s
            },
            size: 0,
            nodelist: String::new(),
            partition: String::new(),
            cluster: String::new(),
            run_dir: String::new(),
            start_time: 0,
            end_time: 0,
        };
        let mut perjob: Vec<PerJobRefcount> = Vec::new();
        perjob.push(
            PerJobRefcount {
                desc: main_desc,
                counter: 1,
                exporter: Exporter::new(),
                islocal: false,
            },
        );
        perjob.push(
            PerJobRefcount {
                desc: node_desc,
                counter: 1,
                exporter: Exporter::new(),
                islocal: false,
            },
        );
        let mut scrapes: Vec<ProxyScraper> = Vec::new();
        scrapes.push(
            ProxyScraper {
                target_url: {
                    let mut s = String::new();
                    s.append("/system");
                    s
                },
                state: Vec::new(),
                period_us: 1_000_000,
                last_scrape: 0,
                ttype: ScraperType::System,
            },
        );
        let mut r = ExporterFactory {
            perjob,
            scrapes,
            pending_scrapes: Vec::new(),
            traces: TraceView::new(),
            node_jobid,
            aggregator: aggregate,
            max_trace_size,
        };
        proof {
            lemma_job_find(r.perjob@, main_jobid());
            lemma_job_find(r.perjob@, r.node_jobid@);
            assert(r.perjob@[0].desc.jobid@ == main_jobid());
            assert(r.perjob@[1].desc.jobid@ == r.node_jobid@);
            assert(job_find(r.perjob@, main_jobid()) >= 0);
            assert(job_find(r.perjob@, r.node_jobid@) >= 0);
        }
        if aggregate {
            proof {
                reveal_strlit("Sum of all Jobs");
                reveal_strlit("Sum of all Jobs running on this node");
                assert(r.perjob@[0].desc.jobid@.len() == 4);
                assert(r.perjob@[1].desc.jobid@.len() <= 4102);
                assert(r.perjob@[0].desc.command@ == "Sum of all Jobs"@);
                assert(r.perjob@[1].desc.command@ == "Sum of all Jobs running on this node"@);
            }
            let _ = r.traces.get(&r.perjob[0].desc.clone(), max_trace_size, now_us);
            let _ = r.traces.get(&r.perjob[1].desc.clone(), max_trace_size, now_us);
            let mjid = r.perjob[0].desc.jobid.clone();
            r.pending_scrapes.push(ProxyScraper::newftio(mjid.as_str()));
            let njid = r.perjob[1].desc.jobid.clone();
            r.pending_scrapes.push(ProxyScraper::newftio(njid.as_str()));
        }
        r
    }

    /// Index of the entry for `jobid`, or the length when none exists.
    pub fn find_job(&self, jobid: &str) -> (r: usize)
        ensures
            job_find(self.perjob@, jobid@) >= 0 ==> r == job_find(self.perjob@, jobid@),
            job_find(self.perjob@, jobid@) < 0 ==> r == self.perjob@.len(),
    {
        let n = self.perjob.len();
        let mut i: usize = 0;
        proof {
            lemma_job_find(self.perjob@, jobid@);
        }
        while i < n
            invariant
                n == self.perjob@.len(),
                0 <= i <= n,
                forall|j: int| 0 <= j < i ==> self.perjob@[j].desc.jobid@ != jobid@,
            decreases n - i,
        {
            if str_eq(self.perjob[i].desc.jobid.as_str(), jobid) {
                proof {
                    lemma_job_find(self.perjob@, jobid@);
                }
                return i;
            }
            i = i + 1;
            proof {
                lemma_job_find(self.perjob@, jobid@);
            }
        }
        n
    }

    /// The exporter of a registered job, when there is one.
    pub fn resolve_by_id(&self, jobid: &str) -> (r: Option<&Exporter>)
        ensures
            job_find(self.perjob@, jobid@) >= 0 ==> r == Some(
                &self.perjob@[job_find(self.perjob@, jobid@)].exporter,
            ),
            job_find(self.perjob@, jobid@) < 0 ==> r is None,
    {
        proof {
            lemma_job_find(self.perjob@, jobid@);
        }
        let i = self.find_job(jobid);
        if i < self.perjob.len() {
            Some(&self.perjob[i].exporter)
        } else {
            None
        }
    }

    /// Acquire a job: a known job gains one reference (and is marked local
    /// when this acquisition is), an unknown one is registered with a fresh
    /// exporter and, on an aggregating proxy, gets a trace and its trace and
    /// surrogate-model scrape sources parked in the pending backbuffer.
    pub fn resolve_job(&mut self, desc: &JobDesc, tobesaved: bool, now_us: u64) -> (r: usize)
        requires
            old(self).wf(),
            desc.jobid@.len() <= field_bound(),
            desc.command@.len() <= field_bound(),
            desc.nodelist@.len() <= field_bound(),
            desc.partition@.len() <= field_bound(),
            desc.cluster@.len() <= field_bound(),
            desc.run_dir@.len() <= field_bound(),
        ensures
            final(self).wf(),
            final(self).node_jobid == old(self).node_jobid,
            final(self).aggregator == old(self).aggregator,
            final(self).max_trace_size == old(self).max_trace_size,
            final(self).scrapes@ == old(self).scrapes@,
            r < final(self).perjob@.len(),
            final(self).perjob@[r as int].desc.jobid@ == desc.jobid@,
            ({
                let i = job_find(old(self).perjob@, desc.jobid@);
                let jobs = final(self).perjob@;
                let oldjobs = old(self).perjob@;
                if i >= 0 {
                    r == i && jobs.len() == oldjobs.len() && jobs[i].counter
                        == crate::util::sat_add_u64(oldjobs[i].counter as int, 1)
                        && jobs[i].islocal == (oldjobs[i].islocal || (tobesaved
                        && !old(self).is_sentinel(desc.jobid@))) && jobs[i].desc == oldjobs[i].desc
                        && jobs[i].exporter == oldjobs[i].exporter && (forall|j: int|
                        0 <= j < oldjobs.len() && j != i ==> jobs[j] == oldjobs[j])
                        && final(self).pending_scrapes@ == old(self).pending_scrapes@
                        && final(self).traces == old(self).traces
                } else {
                    r == oldjobs.len() && jobs.len() == oldjobs.len() + 1 && jobs.drop_last()
                        == oldjobs && jobs.last().counter == 1 && jobs.last().islocal == tobesaved
                        && jobs.last().desc == *desc && jobs.last().exporter.groups@.len() == 0
                }
            }),
            // A fresh job on an aggregating proxy gets its trace opened and
            // its trace and surrogate-model sources parked for the next tick.
            job_find(old(self).perjob@, desc.jobid@) < 0 && !old(self).aggregator
                ==> final(self).traces == old(self).traces && final(self).pending_scrapes@
                == old(self).pending_scrapes@,
            job_find(old(self).perjob@, desc.jobid@) < 0 && old(self).aggregator ==> ({
                let ti = trace_find(old(self).traces.traces@, desc.jobid@);
                let ts = final(self).traces.traces@;
                let oldts = old(self).traces.traces@;
                &&& (ti >= 0 ==> ts == oldts)
                &&& (ti < 0 ==> ts.len() == oldts.len() + 1 && ts.drop_last() == oldts
                    && ts.last().desc == *desc && ts.last().state.frames_model() =~= seq![
                    FrameView::Desc { ts: now_us, desc: desc@ },
                ])
            }),
            job_find(old(self).perjob@, desc.jobid@) < 0 && old(self).aggregator ==> ({
                let pend = final(self).pending_scrapes@;
                let oldpend = old(self).pending_scrapes@;
                &&& pend.len() == oldpend.len() + 2
                &&& pend.take(oldpend.len() as int) == oldpend
                &&& pend[oldpend.len() as int].ttype is Trace
                &&& pend[oldpend.len() as int].target_url@ == "/trace."@ + desc.jobid@
                &&& pend[oldpend.len() as int].period_us == 500_000
                &&& pend.last().ttype is Ftio
                &&& pend.last().target_url@ == "/FTIO/"@ + desc.jobid@
                &&& pend.last().period_us == 30_000_000
            }),
    {
        proof {
            lemma_job_find(self.perjob@, desc.jobid@);
        }
        // The pinned aggregate jobs never become local: node samples are
        // attributed only to jobs the local ingest path created.
        proof {
            reveal_strlit("main");
        }
        let node_jobid = self.node_jobid.clone();
        let sentinel = str_eq(desc.jobid.as_str(), "main") || str_eq(
            desc.jobid.as_str(),
            node_jobid.as_str(),
        );
        let i = self.find_job(desc.jobid.as_str());
        if i < self.perjob.len() {
            let e = &mut self.perjob[i];
            e.counter = crate::util::add_sat_u64(e.counter, 1);
            if tobesaved && !sentinel {
                e.islocal = true;
            }
            proof {
                assert(forall|j: int|
                    0 <= j < self.perjob@.len() && j != i as int ==> self.perjob@[j]
                        == old(self).perjob@[j]);
                lemma_job_find(self.perjob@, main_jobid());
                lemma_job_find(self.perjob@, self.node_jobid@);
                lemma_job_find(old(self).perjob@, main_jobid());
                lemma_job_find(old(self).perjob@, self.node_jobid@);
                assert(self.perjob@[job_find(old(self).perjob@, main_jobid())].desc.jobid@
                    == main_jobid());
                assert(self.perjob@[job_find(old(self).perjob@, self.node_jobid@)].desc.jobid@
                    == self.node_jobid@);
                assert(job_find(self.perjob@, main_jobid()) == job_find(
                    old(self).perjob@,
                    main_jobid(),
                ));
                assert(job_find(self.perjob@, self.node_jobid@) == job_find(
                    old(self).perjob@,
                    self.node_jobid@,
                ));
            }
            i
        } else {
            if self.aggregator {
                let _ = self.traces.get(desc, self.max_trace_size, now_us);
                let trace_scrape = ProxyScraper::newtrace(desc.jobid.as_str());
                self.pending_scrapes.push(trace_scrape);
                let ftio_scrape = ProxyScraper::newftio(desc.jobid.as_str());
                self.pending_scrapes.push(ftio_scrape);
            }
            let new = PerJobRefcount {
                desc: desc.clone(),
                counter: 1,
                exporter: Exporter::new(),
                islocal: tobesaved,
            };
            self.perjob.push(new);
            proof {
                lemma_job_find(old(self).perjob@, desc.jobid@);
                assert(forall|k: int|
                    0 <= k < self.perjob@.len() - 1 ==> self.perjob@[k] == old(self).perjob@[k]);
                lemma_job_find_push(old(self).perjob@, self.perjob@.last(), main_jobid());
                lemma_job_find_push(old(self).perjob@, self.perjob@.last(), self.node_jobid@);
                lemma_job_find(old(self).perjob@, main_jobid());
                lemma_job_find(old(self).perjob@, self.node_jobid@);
                assert(job_find(self.perjob@, main_jobid()) == job_find(
                    old(self).perjob@,
                    main_jobid(),
                ));
                assert(job_find(self.perjob@, self.node_jobid@) == job_find(
                    old(self).perjob@,
                    self.node_jobid@,
                ));
            }
            self.perjob.len() - 1
        }
    }
}

impl ExporterFactory {
    /// What a release does to the trace store: the final release of a held,
    /// unpinned job marks its trace (if any) complete and touches no other;
    /// every other call leaves the store as it was.
    pub open spec fn release_trace_effect(pre: Self, post: Self, jid: Seq<char>) -> bool {
        let i = job_find(pre.perjob@, jid);
        if i >= 0 && !pre.is_sentinel(jid) && pre.perjob@[i].counter == 1 {
            let ti = trace_find(pre.traces.traces@, jid);
            &&& post.traces.traces@.len() == pre.traces.traces@.len()
            &&& (ti >= 0 ==> post.traces.traces@[ti].done && post.traces.traces@[ti].desc
                == pre.traces.traces@[ti].desc && post.traces.traces@[ti].state
                == pre.traces.traces@[ti].state && (forall|j: int|
                0 <= j < pre.traces.traces@.len() && j != ti
                    ==> post.traces.traces@[j] == pre.traces.traces@[j]))
            &&& (ti < 0 ==> post.traces.traces@ == pre.traces.traces@)
        } else {
            post.traces == pre.traces
        }
    }

    /// Release one reference on a job.  At zero the job is evicted: its
    /// trace is marked complete and, on an aggregating proxy, its final
    /// profile is handed back for persisting.  The two pinned aggregate
    /// jobs are never released.
    #[verifier::rlimit(40)]
    pub fn relax_job(&mut self, desc: &JobDesc) -> (r: Result<Option<JobProfile>, ProxyErr>)
        requires
            old(self).wf(),
        ensures
            final(self).wf(),
            final(self).node_jobid == old(self).node_jobid,
            final(self).aggregator == old(self).aggregator,
            final(self).max_trace_size == old(self).max_trace_size,
            final(self).scrapes@ == old(self).scrapes@,
            final(self).pending_scrapes@ == old(self).pending_scrapes@,
            ({
                let i = job_find(old(self).perjob@, desc.jobid@);
                let jobs = final(self).perjob@;
                let oldjobs = old(self).perjob@;
                if i < 0 || old(self).is_sentinel(desc.jobid@) {
                    r is Err && jobs == oldjobs
                } else if oldjobs[i].counter > 1 {
                    r == Result::<Option<JobProfile>, ProxyErr>::Ok(None) && jobs.len()
                        == oldjobs.len() && jobs[i].counter == oldjobs[i].counter - 1
                        && jobs[i].desc == oldjobs[i].desc && jobs[i].exporter
                        == oldjobs[i].exporter && jobs[i].islocal == oldjobs[i].islocal && (forall|
                        j: int,
                    |
                        0 <= j < oldjobs.len() && j != i ==> jobs[j] == oldjobs[j])
                } else {
                    jobs =~= oldjobs.remove(i) && r is Ok && (old(self).aggregator
                        ==> r->Ok_0 is Some && r->Ok_0->0.desc == *desc
                        && r->Ok_0->0.counters@ == crate::exporter::groups_profile(
                        oldjobs[i].exporter.groups@,
                        false,
                    )) && (!old(self).aggregator ==> r->Ok_0 is None)
                }
            }),
            Self::release_trace_effect(*old(self), *final(self), desc.jobid@),
    {
        proof {
            lemma_job_find(self.perjob@, desc.jobid@);
            reveal_strlit("main");
        }
        let i = self.find_job(desc.jobid.as_str());
        if i >= self.perjob.len() {
            return Err(ProxyErr::new("No such job to remove"));
        }
        if str_eq(desc.jobid.as_str(), "main") || str_eq(
            desc.jobid.as_str(),
            self.node_jobid.as_str(),
        ) {
            return Err(ProxyErr::new("Cannot release a pinned aggregate job"));
        }
        let e = &mut self.perjob[i];
        if e.counter > 1 {
            e.counter = e.counter - 1;
            proof {
                assert(forall|j: int|
                    0 <= j < self.perjob@.len() && j != i as int ==> self.perjob@[j]
                        == old(self).perjob@[j]);
                lemma_job_find(old(self).perjob@, main_jobid());
                lemma_job_find(old(self).perjob@, self.node_jobid@);
                lemma_job_find(self.perjob@, main_jobid());
                lemma_job_find(self.perjob@, self.node_jobid@);
                assert(self.perjob@[job_find(old(self).perjob@, main_jobid())].desc.jobid@
                    == main_jobid());
                assert(self.perjob@[job_find(old(self).perjob@, self.node_jobid@)].desc.jobid@
                    == self.node_jobid@);
                assert(job_find(self.perjob@, main_jobid()) == job_find(
                    old(self).perjob@,
                    main_jobid(),
                ));
                assert(job_find(self.perjob@, self.node_jobid@) == job_find(
                    old(self).perjob@,
                    self.node_jobid@,
                ));
            }
            return Ok(None);
        }
        let snap = if self.aggregator {
            // The caller's description travels with the profile: the ingest
            // path stamps its end time before releasing.
            let entry = &self.perjob[i];
            Some(entry.exporter.profile(desc, false))
        } else {
            None
        };
        self.traces.done(desc.jobid.as_str());
        let _removed = self.perjob.remove(i);
        proof {
            let oldjobs = old(self).perjob@;
            assert(self.perjob@ =~= oldjobs.remove(i as int));
            assert(forall|j: int|
                0 <= j < i as int ==> self.perjob@[j] == oldjobs[j]);
            assert(forall|j: int|
                i as int <= j < self.perjob@.len() ==> self.perjob@[j] == oldjobs[j + 1]);
            lemma_job_find(oldjobs, main_jobid());
            lemma_job_find(oldjobs, self.node_jobid@);
            let mi = job_find(oldjobs, main_jobid());
            let ni = job_find(oldjobs, self.node_jobid@);
            assert(oldjobs[mi].desc.jobid@ == main_jobid());
            assert(oldjobs[ni].desc.jobid@ == self.node_jobid@);
            assert(mi != i as int && ni != i as int);
            let mi2: int = if mi < i as int {
                mi
            } else {
                mi - 1
            };
            let ni2: int = if ni < i as int {
                ni
            } else {
                ni - 1
            };
            assert(self.perjob@[mi2].desc.jobid@ == main_jobid());
            assert(self.perjob@[ni2].desc.jobid@ == self.node_jobid@);
            assert(self.perjob@[mi2].islocal == oldjobs[mi].islocal);
            assert(self.perjob@[ni2].islocal == oldjobs[ni].islocal);
            lemma_job_find(self.perjob@, main_jobid());
            lemma_job_find(self.perjob@, self.node_jobid@);
            assert(job_find(self.perjob@, main_jobid()) == mi2);
            assert(job_find(self.perjob@, self.node_jobid@) == ni2);
        }
        Ok(snap)
    }

    /// Every registered job's description.
    pub fn list_jobs(&self) -> (r: Vec<JobDesc>)
        ensures
            r@.len() == self.perjob@.len(),
            forall|i: int| 0 <= i < r@.len() ==> #[trigger] r@[i] == self.perjob@[i].desc,
    {
        let mut ret: Vec<JobDesc> = Vec::new();
        let n = self.perjob.len();
        let mut i: usize = 0;
        while i < n
            invariant
                n == self.perjob@.len(),
                0 <= i <= n,
                ret@.len() == i,
                forall|j: int| 0 <= j < i ==> #[trigger] ret@[j] == self.perjob@[j].desc,
            decreases n - i,
        {
            ret.push(self.perjob[i].desc.clone());
            i = i + 1;
        }
        ret
    }

    /// The live profile of every registered job.
    pub fn profiles(&self, full: bool) -> (r: Vec<JobProfile>)
        ensures
            r@.len() == self.perjob@.len(),
            forall|i: int|
                0 <= i < r@.len() ==> (#[trigger] r@[i]).desc == self.perjob@[i].desc
                    && r@[i].counters@ == crate::exporter::groups_profile(
                    self.perjob@[i].exporter.groups@,
                    full,
                ),
    {
        let mut ret: Vec<JobProfile> = Vec::new();
        let n = self.perjob.len();
        let mut i: usize = 0;
        while i < n
            invariant
                n == self.perjob@.len(),
                0 <= i <= n,
                ret@.len() == i,
                forall|j: int|
                    0 <= j < i ==> (#[trigger] ret@[j]).desc == self.perjob@[j].desc
                        && ret@[j].counters@ == crate::exporter::groups_profile(
                        self.perjob@[j].exporter.groups@,
                        full,
                    ),
            decreases n - i,
        {
            let e = &self.perjob[i];
            ret.push(e.exporter.profile(&e.desc, full));
            i = i + 1;
        }
        ret
    }

    /// The live profile of one job.
    pub fn profile_of(&self, jobid: &str, full: bool) -> (r: Result<JobProfile, ProxyErr>)
        ensures
            ({
                let i = job_find(self.perjob@, jobid@);
                if i >= 0 {
                    r is Ok && r->Ok_0.desc == self.perjob@[i].desc && r->Ok_0.counters@
                        == crate::exporter::groups_profile(self.perjob@[i].exporter.groups@, full)
                } else {
                    r is Err
                }
            }),
    {
        proof {
            lemma_job_find(self.perjob@, jobid@);
        }
        let i = self.find_job(jobid);
        if i < self.perjob.len() {
            let e = &self.perjob[i];
            Ok(e.exporter.profile(&e.desc, full))
        } else {
            Err(ProxyErr::new("No such Job ID"))
        }
    }

    /// The identifiers of the jobs the local ingest path created; only they
    /// receive node-level metric attribution.
    pub fn get_local_job_exporters(&self) -> (r: Vec<String>)
        ensures
            r@.map_values(|s: String| s@) == local_ids(self.perjob@),
    {
        let mut ret: Vec<String> = Vec::new();
        let n = self.perjob.len();
        let mut i: usize = 0;
        proof {
            assert(ret@.map_values(|s: String| s@) =~= local_ids(self.perjob@.take(0)));
        }
        while i < n
            invariant
                n == self.perjob@.len(),
                0 <= i <= n,
                ret@.map_values(|s: String| s@) =~= local_ids(self.perjob@.take(i as int)),
            decreases n - i,
        {
            proof {
                let t1 = self.perjob@.take(i + 1 as int);
                assert(t1.drop_last() =~= self.perjob@.take(i as int));
                assert(t1.last() == self.perjob@[i as int]);
            }
            if self.perjob[i].islocal {
                ret.push(self.perjob[i].desc.jobid.clone());
            }
            proof {
                assert(ret@.map_values(|s: String| s@) =~= local_ids(
                    self.perjob@.take(i + 1 as int),
                ));
            }
            i = i + 1;
        }
        proof {
            assert(self.perjob@.take(n as int) =~= self.perjob@);
        }
        ret
    }

    /// Fan one metric registration out to the aggregate jobs and, when one
    /// is named, the job it belongs to.
    pub fn push(&mut self, name: &str, doc: &str, ctype: CounterType, perjob_id: Option<&str>) -> (r:
        Result<(), ProxyErr>)
        requires
            old(self).wf(),
        ensures
            final(self).wf(),
            final(self).node_jobid == old(self).node_jobid,
            final(self).aggregator == old(self).aggregator,
            final(self).scrapes@ == old(self).scrapes@,
            final(self).pending_scrapes@ == old(self).pending_scrapes@,
            final(self).traces == old(self).traces,
            final(self).perjob@.len() == old(self).perjob@.len(),
            forall|j: int|
                0 <= j < final(self).perjob@.len() ==> (#[trigger] final(self).perjob@[j]).desc
                    == old(self).perjob@[j].desc && final(self).perjob@[j].counter == old(self).perjob@[j].counter && final(self).perjob@[j].islocal == old(self).perjob@[j].islocal,
            // Registration fails exactly when the fleet aggregate rejects
            // the name: unknown there and brace-invalid.
            ({
                let mi = job_find(old(self).perjob@, main_jobid());
                r is Err <==> crate::exporter::lookup(
                    old(self).perjob@[mi].exporter.groups@,
                    name@,
                ) is None && !valid_name(name@)
            }),
            // The snapshot lands in the fleet aggregate, the node aggregate
            // and, when one is named and registered, the job's exporter;
            // every other exporter keeps every metric.
            r is Ok ==> ({
                let mi = job_find(old(self).perjob@, main_jobid());
                let ni = job_find(old(self).perjob@, old(self).node_jobid@);
                let ji = match perjob_id {
                    Some(jobid) => job_find(old(self).perjob@, jobid@),
                    None => -1,
                };
                &&& crate::exporter::push_outcome(
                    old(self).perjob@[mi].exporter,
                    final(self).perjob@[mi].exporter,
                    name@,
                    doc@,
                    ctype,
                )
                &&& crate::exporter::push_outcome(
                    old(self).perjob@[ni].exporter,
                    final(self).perjob@[ni].exporter,
                    name@,
                    doc@,
                    ctype,
                )
                &&& (ji >= 0 ==> crate::exporter::push_outcome(
                    old(self).perjob@[ji].exporter,
                    final(self).perjob@[ji].exporter,
                    name@,
                    doc@,
                    ctype,
                ))
                &&& forall|j: int|
                    0 <= j < old(self).perjob@.len() && j != mi && j != ni && j != ji ==> (
                    #[trigger] final(self).perjob@[j]).exporter == old(self).perjob@[j].exporter
            }),
    {
        let snapshot = CounterSnapshot {
            name: name.to_owned(),
            doc: doc.to_owned(),
            ctype,
        };
        proof {
            lemma_job_find(self.perjob@, main_jobid());
            lemma_job_find(self.perjob@, self.node_jobid@);
            reveal_strlit("main");
        }
        let ghost gmi = job_find(old(self).perjob@, main_jobid());
        let ghost gni = job_find(old(self).perjob@, old(self).node_jobid@);
        let mi = self.find_job("main");
        let r1 = {
            let e = &mut self.perjob[mi].exporter;
            e.push(&snapshot)
        };
        proof {
            self.lemma_jobs_preserved_after_exporter_update(old(self), mi as int);
        }
        if r1.is_err() {
            return Err(ProxyErr::new("Bad metric name: unmatched brackets"));
        }
        let ghost after_main = *self;
        proof {
            assert(crate::exporter::push_outcome(
                old(self).perjob@[gmi].exporter,
                after_main.perjob@[gmi].exporter,
                name@,
                doc@,
                ctype,
            ));
        }
        // The name is now known to the fleet aggregate.
        proof {
            assert(crate::exporter::lookup(
                after_main.perjob@[gmi].exporter.groups@,
                name@,
            ) is Some);
        }
        let node_jobid = self.node_jobid.clone();
        proof {
            assert(forall|j: int|
                0 <= j < self.perjob@.len() ==> self.perjob@[j].desc.jobid@ == #[trigger] old(self).perjob@[j].desc.jobid@);
            lemma_job_find_same(self.perjob@, old(self).perjob@, self.node_jobid@);
            lemma_job_find(old(self).perjob@, old(self).node_jobid@);
            lemma_job_find(old(self).perjob@, main_jobid());
        }
        let ni = self.find_job(node_jobid.as_str());
        if ni < self.perjob.len() {
            let ghost mid = *self;
            let e = &mut self.perjob[ni].exporter;
            let _ = e.push(&snapshot);
            proof {
                self.lemma_jobs_preserved_after_exporter_update(&mid, ni as int);
                assert(gni == ni as int);
                assert(gni != gmi);
                assert(self.perjob@[gmi].exporter == after_main.perjob@[gmi].exporter);
                assert(crate::exporter::push_outcome(
                    old(self).perjob@[gni].exporter,
                    self.perjob@[gni].exporter,
                    name@,
                    doc@,
                    ctype,
                ));
            }
        }
        let ghost after_node = *self;
        if let Some(jobid) = perjob_id {
            proof {
                assert(forall|j: int|
                    0 <= j < self.perjob@.len() ==> self.perjob@[j].desc.jobid@ == #[trigger] old(self).perjob@[j].desc.jobid@);
                lemma_job_find_same(self.perjob@, old(self).perjob@, jobid@);
            }
            let ji = self.find_job(jobid);
            proof {
                lemma_job_find(old(self).perjob@, jobid@);
                if job_find(old(self).perjob@, jobid@) >= 0 {
                    assert(ji as int == job_find(old(self).perjob@, jobid@));
                }
            }
            if ji < self.perjob.len() {
                let ghost mid = *self;
                let e = &mut self.perjob[ji].exporter;
                let r3 = e.push(&snapshot);
                proof {
                    assert(ji as int == job_find(old(self).perjob@, jobid@));
                    self.lemma_jobs_preserved_after_exporter_update(&mid, ji as int);
                    // A repeat registration in an aggregate target is a
                    // no-op: the name is already there.
                    if ji as int == gmi {
                        assert(mid.perjob@[gmi].exporter == after_main.perjob@[gmi].exporter);
                        assert(crate::exporter::lookup(
                            mid.perjob@[gmi].exporter.groups@,
                            name@,
                        ) is Some);
                        assert(self.perjob@[gmi].exporter.groups@
                            == mid.perjob@[gmi].exporter.groups@);
                        assert(self.perjob@[gmi].exporter.alarms@
                            == mid.perjob@[gmi].exporter.alarms@);
                        assert(crate::exporter::push_outcome(
                            old(self).perjob@[gmi].exporter,
                            self.perjob@[gmi].exporter,
                            name@,
                            doc@,
                            ctype,
                        ));
                    }
                    if ji as int == gni {
                        assert(mid.perjob@[gni].exporter == after_node.perjob@[gni].exporter);
                        assert(crate::exporter::push_outcome(
                            old(self).perjob@[gni].exporter,
                            self.perjob@[gni].exporter,
                            name@,
                            doc@,
                            ctype,
                        ));
                    }
                    if ji as int != gmi && ji as int != gni {
                        assert(mid.perjob@[ji as int].exporter == old(self).perjob@[ji
                            as int].exporter);
                        assert(crate::exporter::push_outcome(
                            old(self).perjob@[ji as int].exporter,
                            self.perjob@[ji as int].exporter,
                            name@,
                            doc@,
                            ctype,
                        ));
                    }
                }
            }
        }
        Ok(())
    }

    /// Fan one observation out to the aggregate jobs and, when one is
    /// named, the job it belongs to, with set semantics as the ingest path
    /// requires.
    pub fn accumulate(&mut self, name: &str, ctype: CounterType, perjob_id: Option<&str>) -> (r:
        Result<(), ProxyErr>)
        requires
            old(self).wf(),
        ensures
            final(self).wf(),
            final(self).node_jobid == old(self).node_jobid,
            final(self).aggregator == old(self).aggregator,
            final(self).scrapes@ == old(self).scrapes@,
            final(self).pending_scrapes@ == old(self).pending_scrapes@,
            final(self).traces == old(self).traces,
            final(self).perjob@.len() == old(self).perjob@.len(),
            forall|j: int|
                0 <= j < final(self).perjob@.len() ==> (#[trigger] final(self).perjob@[j]).desc
                    == old(self).perjob@[j].desc && final(self).perjob@[j].counter == old(self).perjob@[j].counter && final(self).perjob@[j].islocal == old(self).perjob@[j].islocal,
            // The fold fails exactly when the fleet aggregate does not hold
            // the metric with that variant.
            ({
                let mi = job_find(old(self).perjob@, main_jobid());
                r is Err <==> !(match crate::exporter::lookup(
                    old(self).perjob@[mi].exporter.groups@,
                    name@,
                ) {
                    Some(c) => crate::counters::same_variant(c.ctype, ctype),
                    None => false,
                })
            }),
            // On success the observation is folded with set semantics into
            // the aggregates and the named job, each stated where the named
            // job is a different entry; every other exporter keeps every
            // metric.
            r is Ok ==> ({
                let mi = job_find(old(self).perjob@, main_jobid());
                let ni = job_find(old(self).perjob@, old(self).node_jobid@);
                let ji = match perjob_id {
                    Some(jobid) => job_find(old(self).perjob@, jobid@),
                    None => -1,
                };
                &&& (ji != mi ==> crate::exporter::fold_outcome(
                    old(self).perjob@[mi].exporter,
                    final(self).perjob@[mi].exporter,
                    name@,
                    ctype,
                    false,
                ))
                &&& (ji != ni ==> crate::exporter::fold_outcome(
                    old(self).perjob@[ni].exporter,
                    final(self).perjob@[ni].exporter,
                    name@,
                    ctype,
                    false,
                ))
                &&& (ji >= 0 && ji != mi && ji != ni ==> crate::exporter::fold_outcome(
                    old(self).perjob@[ji].exporter,
                    final(self).perjob@[ji].exporter,
                    name@,
                    ctype,
                    false,
                ))
                &&& forall|j: int|
                    0 <= j < old(self).perjob@.len() && j != mi && j != ni && j != ji ==> (
                    #[trigger] final(self).perjob@[j]).exporter == old(self).perjob@[j].exporter
            }),
    {
        let snapshot = CounterSnapshot {
            name: name.to_owned(),
            doc: String::new(),
            ctype,
        };
        proof {
            lemma_job_find(self.perjob@, main_jobid());
            lemma_job_find(self.perjob@, self.node_jobid@);
            reveal_strlit("main");
        }
        let ghost gmi = job_find(old(self).perjob@, main_jobid());
        let ghost gni = job_find(old(self).perjob@, old(self).node_jobid@);
        let mi = self.find_job("main");
        let r1 = {
            let e = &mut self.perjob[mi].exporter;
            e.accumulate(&snapshot, false)
        };
        proof {
            self.lemma_jobs_preserved_after_exporter_update(old(self), mi as int);
        }
        if r1.is_err() {
            return Err(ProxyErr::new("No such key, cannot accumulate it"));
        }
        let ghost after_main = *self;
        let node_jobid = self.node_jobid.clone();
        proof {
            assert(forall|j: int|
                0 <= j < self.perjob@.len() ==> self.perjob@[j].desc.jobid@ == #[trigger] old(self).perjob@[j].desc.jobid@);
            lemma_job_find_same(self.perjob@, old(self).perjob@, self.node_jobid@);
            lemma_job_find(old(self).perjob@, old(self).node_jobid@);
        }
        let ni = self.find_job(node_jobid.as_str());
        if ni < self.perjob.len() {
            let ghost mid = *self;
            let e = &mut self.perjob[ni].exporter;
            let _ = e.accumulate(&snapshot, false);
            proof {
                self.lemma_jobs_preserved_after_exporter_update(&mid, ni as int);
                assert(gni == ni as int);
                assert(gni != gmi);
                assert(self.perjob@[gmi].exporter == after_main.perjob@[gmi].exporter);
            }
        }
        if let Some(jobid) = perjob_id {
            proof {
                assert(forall|j: int|
                    0 <= j < self.perjob@.len() ==> self.perjob@[j].desc.jobid@ == #[trigger] old(self).perjob@[j].desc.jobid@);
                lemma_job_find_same(self.perjob@, old(self).perjob@, jobid@);
                lemma_job_find(old(self).perjob@, jobid@);
            }
            let ji = self.find_job(jobid);
            proof {
                if job_find(old(self).perjob@, jobid@) >= 0 {
                    assert(ji as int == job_find(old(self).perjob@, jobid@));
                }
            }
            if ji < self.perjob.len() {
                let ghost mid = *self;
                let e = &mut self.perjob[ji].exporter;
                let _ = e.accumulate(&snapshot, false);
                proof {
                    assert(ji as int == job_find(old(self).perjob@, jobid@));
                    self.lemma_jobs_preserved_after_exporter_update(&mid, ji as int);
                    if ji as int != gmi && ji as int != gni {
                        assert(mid.perjob@[ji as int].exporter == old(self).perjob@[ji
                            as int].exporter);
                    }
                }
            }
        }
        Ok(())
    }

    /// Replacing one job's exporter with a well-formed one preserves the
    /// registry invariant and every job's bookkeeping.
    proof fn lemma_jobs_preserved_after_exporter_update(&self, older: &Self, i: int)
        requires
            older.wf(),
            0 <= i < older.perjob@.len(),
            self.perjob@.len() == older.perjob@.len(),
            forall|j: int|
                0 <= j < self.perjob@.len() && j != i ==> self.perjob@[j] == older.perjob@[j],
            self.perjob@[i].desc == older.perjob@[i].desc,
            self.perjob@[i].counter == older.perjob@[i].counter,
            self.perjob@[i].islocal == older.perjob@[i].islocal,
            exporter_wf(self.perjob@[i].exporter),
            self.traces == older.traces,
            self.node_jobid == older.node_jobid,
            self.scrapes@ == older.scrapes@,
        ensures
            self.wf(),
            forall|j: int|
                0 <= j < self.perjob@.len() ==> (#[trigger] self.perjob@[j]).desc
                    == older.perjob@[j].desc && self.perjob@[j].counter == older.perjob@[j].counter
                    && self.perjob@[j].islocal == older.perjob@[j].islocal,
            forall|j: int|
                0 <= j < self.perjob@.len() && j != i ==> (#[trigger] self.perjob@[j]).exporter
                    == older.perjob@[j].exporter,
    {
        assert(forall|j: int|
            0 <= j < self.perjob@.len() ==> self.perjob@[j].desc.jobid@
                == #[trigger] older.perjob@[j].desc.jobid@);
        lemma_job_find_same(self.perjob@, older.perjob@, main_jobid());
        lemma_job_find_same(self.perjob@, older.perjob@, self.node_jobid@);
        lemma_job_find(older.perjob@, main_jobid());
        lemma_job_find(older.perjob@, self.node_jobid@);
        let mi = job_find(older.perjob@, main_jobid());
        let ni = job_find(older.perjob@, self.node_jobid@);
        if mi != i {
            assert(self.perjob@[mi] == older.perjob@[mi]);
        }
        if ni != i {
            assert(self.perjob@[ni] == older.perjob@[ni]);
        }
        assert(self.perjob@[mi].islocal == older.perjob@[mi].islocal);
        assert(self.perjob@[ni].islocal == older.perjob@[ni].islocal);
    }

    /// Register a new scrape source, replacing any source with the same
    /// target.
    pub fn add_scrape(&mut self, scraper: ProxyScraper)
        requires
            old(self).wf(),
        ensures
            final(self).wf(),
            final(self).perjob@ == old(self).perjob@,
            final(self).pending_scrapes@ == old(self).pending_scrapes@,
            final(self).traces == old(self).traces,
            final(self).node_jobid == old(self).node_jobid,
            final(self).aggregator == old(self).aggregator,
            1 <= final(self).scrapes@.len() <= old(self).scrapes@.len() + 1,
            // The new source is in; afterwards it is the only one with its
            // target.
            final(self).scrapes@.last() == scraper,
            forall|j: int|
                0 <= j < final(self).scrapes@.len() - 1 ==> (#[trigger] final(self).scrapes@[j]).target_url@
                    != scraper.target_url@,
            // Sources aimed at other targets all survive.
            forall|i: int|
                0 <= i < old(self).scrapes@.len() && (#[trigger] old(self).scrapes@[i]).target_url@
                    != scraper.target_url@ ==> exists|j: int|
                    0 <= j < final(self).scrapes@.len() && final(self).scrapes@[j]
                        == old(self).scrapes@[i],
    {
        let n = self.scrapes.len();
        let mut i: usize = 0;
        let mut found = n;
        while i < n
            invariant
                n == self.scrapes@.len(),
                0 <= i <= n,
                found <= n,
                found == n ==> forall|j: int|
                    0 <= j < i ==> self.scrapes@[j].target_url@ != scraper.target_url@,
                found < n ==> self.scrapes@[found as int].target_url@ == scraper.target_url@,
            decreases n - i,
        {
            if found == n && str_eq(self.scrapes[i].target_url.as_str(), scraper.target_url.as_str())
             {
                found = i;
            }
            i = i + 1;
        }
        if found < self.scrapes.len() {
            self.scrapes.remove(found);
            proof {
                assert(forall|j: int|
                    0 <= j < found ==> self.scrapes@[j] == old(self).scrapes@[j]);
                assert(forall|j: int|
                    found <= j < self.scrapes@.len() ==> self.scrapes@[j] == old(self).scrapes@[j
                        + 1]);
                assert(forall|j: int|
                    0 <= j < self.scrapes@.len() ==> self.scrapes@[j].target_url@
                        != scraper.target_url@);
            }
        }
        let ghost pre = self.scrapes@;
        self.scrapes.push(scraper);
        proof {
            assert(self.scrapes@.last() == scraper);
            assert(forall|j: int| 0 <= j < pre.len() ==> self.scrapes@[j] == pre[j]);
            assert forall|i2: int|
                0 <= i2 < old(self).scrapes@.len() && (#[trigger] old(self).scrapes@[i2]).target_url@ != scraper.target_url@ implies exists|j: int|
                0 <= j < self.scrapes@.len() && self.scrapes@[j] == old(self).scrapes@[i2] by {
                if found < old(self).scrapes@.len() {
                    if i2 < found as int {
                        assert(self.scrapes@[i2] == old(self).scrapes@[i2]);
                    } else {
                        assert(self.scrapes@[i2 - 1] == old(self).scrapes@[i2]);
                    }
                } else {
                    assert(self.scrapes@[i2] == old(self).scrapes@[i2]);
                }
            }
        }
    }

    /// What a listing reports about every scrape source.
    pub fn list_scrapes(&self) -> (r: Vec<ProxyScraperSnapshot>)
        ensures
            r@.len() == self.scrapes@.len(),
            forall|i: int|
                0 <= i < r@.len() ==> (#[trigger] r@[i]).target_url@
                    == self.scrapes@[i].target_url@ && r@[i].period_us == self.scrapes@[i].period_us,
    {
        let mut ret: Vec<ProxyScraperSnapshot> = Vec::new();
        let n = self.scrapes.len();
        let mut i: usize = 0;
        while i < n
            invariant
                n == self.scrapes@.len(),
                0 <= i <= n,
                ret@.len() == i,
                forall|j: int|
                    0 <= j < i ==> (#[trigger] ret@[j]).target_url@
                        == self.scrapes@[j].target_url@ && ret@[j].period_us
                        == self.scrapes@[j].period_us,
            decreases n - i,
        {
            ret.push(self.scrapes[i].snapshot());
            i = i + 1;
        }
        ret
    }

    /// Move every source parked during the tick into the active registry:
    /// afterwards the pending list is empty and each parked target is
    /// scraped.
    pub fn commit_pending_scrapes(&mut self)
        requires
            old(self).wf(),
        ensures
            final(self).wf(),
            final(self).perjob@ == old(self).perjob@,
            final(self).traces == old(self).traces,
            final(self).node_jobid == old(self).node_jobid,
            final(self).aggregator == old(self).aggregator,
            final(self).pending_scrapes@.len() == 0,
            forall|i: int|
                0 <= i < old(self).pending_scrapes@.len() ==> exists|j: int|
                    0 <= j < final(self).scrapes@.len() && (#[trigger] final(self).scrapes@[j]).target_url@
                        == (#[trigger] old(self).pending_scrapes@[i]).target_url@,
            // Each parked source lands whole, unless a later parked source
            // re-aims the same target and supersedes it.
            forall|i: int|
                0 <= i < old(self).pending_scrapes@.len() && (forall|i2: int|
                    i < i2 < old(self).pending_scrapes@.len()
                        ==> old(self).pending_scrapes@[i2].target_url@
                        != old(self).pending_scrapes@[i].target_url@) ==> exists|j: int|
                    0 <= j < final(self).scrapes@.len() && #[trigger] final(self).scrapes@[j] == (
                    #[trigger] old(self).pending_scrapes@[i]),
    {
        let ghost parked = self.pending_scrapes@;
        let ghost mut done: int = 0;
        while self.pending_scrapes.len() > 0
            invariant
                self.wf(),
                self.perjob@ == old(self).perjob@,
                self.traces == old(self).traces,
                self.node_jobid == old(self).node_jobid,
                self.aggregator == old(self).aggregator,
                0 <= done <= parked.len(),
                self.pending_scrapes@ == parked.skip(done),
                forall|i: int|
                    0 <= i < done ==> exists|j: int|
                        0 <= j < self.scrapes@.len() && (#[trigger] self.scrapes@[j]).target_url@
                            == (#[trigger] parked[i]).target_url@,
                forall|i: int|
                    0 <= i < done && (forall|i2: int|
                        i < i2 < parked.len() ==> parked[i2].target_url@ != parked[i].target_url@)
                        ==> exists|j: int|
                        0 <= j < self.scrapes@.len() && #[trigger] self.scrapes@[j] == (
                        #[trigger] parked[i]),
            decreases self.pending_scrapes@.len(),
        {
            let s = self.pending_scrapes.remove(0);
            proof {
                assert(parked.skip(done)[0] == parked[done]);
                assert(self.pending_scrapes@ =~= parked.skip(done + 1));
            }
            proof {
                assert(s == parked[done]);
            }
            let ghost before = self.scrapes@;
            let ghost surl = s.target_url@;
            self.add_scrape(s);
            proof {
                assert(surl == parked[done].target_url@);
                assert(self.scrapes@.len() >= 1);
                assert(self.scrapes@[self.scrapes@.len() - 1].target_url@ == surl);
                assert forall|i: int| 0 <= i < done + 1 implies exists|j: int|
                    0 <= j < self.scrapes@.len() && (#[trigger] self.scrapes@[j]).target_url@
                        == (#[trigger] parked[i]).target_url@ by {
                    if i < done {
                        let j0 = choose|j0: int|
                            0 <= j0 < before.len() && before[j0].target_url@
                                == parked[i].target_url@;
                        if before[j0].target_url@ == surl {
                            assert(self.scrapes@[self.scrapes@.len() - 1].target_url@
                                == parked[i].target_url@);
                        } else {
                            let j1 = choose|j1: int|
                                0 <= j1 < self.scrapes@.len() && self.scrapes@[j1] == before[j0];
                            assert(self.scrapes@[j1].target_url@ == parked[i].target_url@);
                        }
                    } else {
                        assert(self.scrapes@[self.scrapes@.len() - 1].target_url@
                            == parked[i].target_url@);
                    }
                }
                assert forall|i: int|
                    0 <= i < done + 1 && (forall|i2: int|
                        i < i2 < parked.len() ==> parked[i2].target_url@ != parked[i].target_url@)
                        implies exists|j: int|
                    0 <= j < self.scrapes@.len() && #[trigger] self.scrapes@[j] == (
                    #[trigger] parked[i]) by {
                    if i < done {
                        assert(parked[done].target_url@ != parked[i].target_url@);
                        let j0 = choose|j0: int|
                            0 <= j0 < before.len() && #[trigger] before[j0] == parked[i];
                        assert(before[j0].target_url@ != surl);
                        let j1 = choose|j1: int|
                            0 <= j1 < self.scrapes@.len() && self.scrapes@[j1] == before[j0];
                        assert(self.scrapes@[j1] == parked[i]);
                    } else {
                        assert(self.scrapes@[self.scrapes@.len() - 1] == parked[i]);
                    }
                }
                done = done + 1;
            }
        }
        proof {
            assert(done == parked.len());
        }
    }
}

impl ExporterFactory {
    /// Bind an alarm inside one job's exporter.
    pub fn add_alarm(
        &mut self,
        name: String,
        target_job: &str,
        metric: String,
        op: String,
        value: i64,
    ) -> (r: Result<(), ProxyErr>)
        requires
            old(self).wf(),
        ensures
            final(self).wf(),
            final(self).node_jobid == old(self).node_jobid,
            final(self).aggregator == old(self).aggregator,
            final(self).scrapes@ == old(self).scrapes@,
            final(self).pending_scrapes@ == old(self).pending_scrapes@,
            final(self).traces == old(self).traces,
            // An alarm binds exactly when the job exists, the metric is
            // registered there, the comparator is well formed and the name
            // is fresh.
            ({
                let i = job_find(old(self).perjob@, target_job@);
                r is Ok <==> i >= 0 && crate::exporter::lookup(
                    old(self).perjob@[i].exporter.groups@,
                    metric@,
                ) is Some && (op@ == "="@ || op@ == "<"@ || op@ == ">"@) && (forall|j: int|
                    0 <= j < old(self).perjob@[i].exporter.alarms@.len() ==> old(self).perjob@[i].exporter.alarms@[j].name@ != name@)
            }),
            ({
                let i = job_find(old(self).perjob@, target_job@);
                r is Ok ==> final(self).perjob@[i].exporter.alarms@.len() == old(self).perjob@[i].exporter.alarms@.len() + 1 && final(self).perjob@[i].exporter.alarms@.last().name@ == name@ && final(self).perjob@[i].exporter.alarms@.last().metric@ == metric@ && final(self).perjob@[i].exporter.alarms@.drop_last() == old(self).perjob@[i].exporter.alarms@
                    && final(self).perjob@[i].exporter.groups@ == old(self).perjob@[i].exporter.groups@
            }),
            // The stored alarm carries the parsed comparator and threshold.
            ({
                let i = job_find(old(self).perjob@, target_job@);
                let stored = final(self).perjob@[i].exporter.alarms@.last().op;
                &&& (r is Ok && op@ == "="@ ==> stored == crate::alarms::AlarmOperator::Equal(
                    value,
                ))
                &&& (r is Ok && op@ == "<"@ ==> stored == crate::alarms::AlarmOperator::Less(value))
                &&& (r is Ok && op@ == ">"@ ==> stored == crate::alarms::AlarmOperator::More(value))
            }),
            // On failure every job keeps its metrics and alarms.
            r is Err ==> final(self).perjob@.len() == old(self).perjob@.len() && forall|j: int|
                0 <= j < old(self).perjob@.len() ==> (#[trigger] final(self).perjob@[j]).exporter.groups@ == old(self).perjob@[j].exporter.groups@ && final(self).perjob@[j].exporter.alarms@ == old(self).perjob@[j].exporter.alarms@,
            forall|j: int|
                0 <= j < old(self).perjob@.len() && j != job_find(old(self).perjob@, target_job@)
                    ==> (#[trigger] final(self).perjob@[j]).exporter == old(self).perjob@[j].exporter,
    {
        proof {
            lemma_job_find(self.perjob@, target_job@);
        }
        let i = self.find_job(target_job);
        if i >= self.perjob.len() {
            return Err(ProxyErr::new("Failed to locate job"));
        }
        let ghost mid = *self;
        let e = &mut self.perjob[i].exporter;
        let r = e.add_alarm(name, metric, op, value);
        proof {
            self.lemma_jobs_preserved_after_exporter_update(&mid, i as int);
        }
        r
    }

    /// Remove an alarm from one job's exporter.
    pub fn delete_alarm(&mut self, target_job: &str, alarm_name: &String) -> (r: Result<
        (),
        ProxyErr,
    >)
        requires
            old(self).wf(),
        ensures
            final(self).wf(),
            final(self).node_jobid == old(self).node_jobid,
            final(self).aggregator == old(self).aggregator,
            final(self).scrapes@ == old(self).scrapes@,
            final(self).pending_scrapes@ == old(self).pending_scrapes@,
            final(self).traces == old(self).traces,
            // Removal succeeds exactly when the job exists and holds the
            // alarm; the alarm is then gone and nothing else moves.
            ({
                let i = job_find(old(self).perjob@, target_job@);
                r is Ok <==> i >= 0 && exists|j: int|
                    0 <= j < old(self).perjob@[i].exporter.alarms@.len() && (#[trigger] old(self).perjob@[i].exporter.alarms@[j]).name@ == alarm_name@
            }),
            ({
                let i = job_find(old(self).perjob@, target_job@);
                r is Ok ==> final(self).perjob@[i].exporter.groups@ == old(self).perjob@[i].exporter.groups@ && exists|j: int|
                    0 <= j < old(self).perjob@[i].exporter.alarms@.len() && (#[trigger] old(self).perjob@[i].exporter.alarms@[j]).name@ == alarm_name@ && final(self).perjob@[i].exporter.alarms@ =~= old(self).perjob@[i].exporter.alarms@.remove(
                        j,
                    )
            }),
            r is Err ==> final(self).perjob@.len() == old(self).perjob@.len() && forall|j: int|
                0 <= j < old(self).perjob@.len() ==> (#[trigger] final(self).perjob@[j]).exporter.groups@ == old(self).perjob@[j].exporter.groups@ && final(self).perjob@[j].exporter.alarms@ == old(self).perjob@[j].exporter.alarms@,
            forall|j: int|
                0 <= j < old(self).perjob@.len() && j != job_find(old(self).perjob@, target_job@)
                    ==> (#[trigger] final(self).perjob@[j]).exporter == old(self).perjob@[j].exporter,
    {
        proof {
            lemma_job_find(self.perjob@, target_job@);
        }
        let i = self.find_job(target_job);
        if i >= self.perjob.len() {
            return Err(ProxyErr::new("Failed to locate job"));
        }
        let ghost mid = *self;
        let e = &mut self.perjob[i].exporter;
        let r = e.delete_alarm(alarm_name);
        proof {
            self.lemma_jobs_preserved_after_exporter_update(&mid, i as int);
        }
        r
    }

    /// Walk every job's alarms and report those whose condition holds.
    pub fn check_alarms(&self) -> (r: Vec<(String, Vec<crate::alarms::ValueAlarmTrigger>)>)
        ensures
            r@.len() == self.perjob@.len(),
            forall|i: int|
                0 <= i < r@.len() ==> (#[trigger] r@[i]).0@ == self.perjob@[i].desc.jobid@
                    && r@[i].1@ == crate::exporter::triggered(
                    self.perjob@[i].exporter.groups@,
                    self.perjob@[i].exporter.alarms@,
                ),
    {
        let mut ret: Vec<(String, Vec<crate::alarms::ValueAlarmTrigger>)> = Vec::new();
        let n = self.perjob.len();
        let mut i: usize = 0;
        while i < n
            invariant
                n == self.perjob@.len(),
                0 <= i <= n,
                ret@.len() == i,
                forall|j: int|
                    0 <= j < i ==> (#[trigger] ret@[j]).0@ == self.perjob@[j].desc.jobid@
                        && ret@[j].1@ == crate::exporter::triggered(
                        self.perjob@[j].exporter.groups@,
                        self.perjob@[j].exporter.alarms@,
                    ),
            decreases n - i,
        {
            let e = &self.perjob[i];
            ret.push((e.desc.jobid.clone(), e.exporter.check_alarms()));
            i = i + 1;
        }
        ret
    }

    /// Take one trace sample of a job: its live profile, appended to its
    /// trace.  Returns the doubled sampling period when the append made the
    /// trace fold.  Oversized or duplicated batches are soft errors.
    pub fn scrape_trace(&mut self, jobid: &str, now_us: u64, period_us: u64) -> (r: Result<
        Option<u64>,
        ProxyErr,
    >)
        requires
            old(self).wf(),
        ensures
            final(self).wf(),
            final(self).node_jobid == old(self).node_jobid,
            final(self).aggregator == old(self).aggregator,
            final(self).perjob@ == old(self).perjob@,
            final(self).scrapes@ == old(self).scrapes@,
            final(self).pending_scrapes@ == old(self).pending_scrapes@,
            // The sample lands exactly when the job and its live trace
            // exist and the has-data profile passes the recording gates.
            ({
                let ji = job_find(old(self).perjob@, jobid@);
                let ti = trace_find(old(self).traces.traces@, jobid@);
                r is Ok <==> ji >= 0 && ti >= 0 && Self::scrape_gates(
                    crate::exporter::groups_profile(old(self).perjob@[ji].exporter.groups@, false),
                    old(self).traces.traces@[ti],
                )
            }),
            // On success the trace received the profile's counters,
            // interned and framed, folding when the budget overflowed.
            r is Ok ==> ({
                let ji = job_find(old(self).perjob@, jobid@);
                let ti = trace_find(old(self).traces.traces@, jobid@);
                let snap = crate::exporter::groups_profile(
                    old(self).perjob@[ji].exporter.groups@,
                    false,
                );
                let t0 = old(self).traces.traces@[ti];
                let t1 = final(self).traces.traces@[ti];
                let appended = t0.state.frames_model() + crate::trace::pushed_frames(
                    crate::trace::table_view(t0.state.counters@),
                    crate::snapshot::snaps_view(snap),
                    now_us,
                );
                &&& final(self).traces.traces@.len() == old(self).traces.traces@.len()
                &&& (forall|j: int|
                    0 <= j < old(self).traces.traces@.len() && j != ti ==> final(self).traces.traces@[j] == old(self).traces.traces@[j])
                &&& t1.desc == t0.desc
                &&& t1.done == t0.done
                &&& (if crate::trace_codec::log_bytes(appended).len() > t0.state.max_size {
                    t1.state.frames_model() == crate::trace::fold_frames(appended) && r->Ok_0
                        == Some(crate::util::sat_add_u64(period_us as int, period_us as int) as u64)
                } else {
                    t1.state.frames_model() == appended && r->Ok_0 is None
                })
            }),
            r is Err ==> final(self).traces.traces@ == old(self).traces.traces@,
    {
        proof {
            lemma_job_find(self.perjob@, jobid@);
            crate::trace::lemma_trace_find(self.traces.traces@, jobid@);
        }
        let i = self.find_job(jobid);
        if i >= self.perjob.len() {
            return Err(ProxyErr::new("No such Job ID"));
        }
        let ghost gsnap = crate::exporter::groups_profile(
            old(self).perjob@[i as int].exporter.groups@,
            false,
        );
        proof {
            assert(i as int == job_find(old(self).perjob@, jobid@));
        }
        let snap = {
            let e = &self.perjob[i];
            e.exporter.profile(&e.desc, false)
        };
        let ti = self.traces.find(jobid);
        if ti >= self.traces.traces.len() {
            return Err(ProxyErr::new("No trace for this job"));
        }
        proof {
            assert(ti as int == trace_find(old(self).traces.traces@, jobid@));
        }
        // The trace takes only bounded, duplicate-free batches; anything
        // else is refused rather than recorded wrongly.
        let counters = snap.counters;
        if counters.len() > 4096 {
            return Err(ProxyErr::new("Snapshot too large to trace"));
        }
        let n = counters.len();
        let mut k: usize = 0;
        while k < n
            invariant
                *self == *old(self),
                self.wf(),
                ti < self.traces.traces@.len(),
                ti as int == trace_find(old(self).traces.traces@, jobid@),
                i < old(self).perjob@.len(),
                i as int == job_find(old(self).perjob@, jobid@),
                gsnap == crate::exporter::groups_profile(
                    old(self).perjob@[i as int].exporter.groups@,
                    false,
                ),
                counters@ == gsnap,
                n == counters@.len(),
                0 <= k <= n,
                forall|j: int|
                    0 <= j < k ==> (#[trigger] counters@[j]).name@.len() <= 4096
                        && counters@[j].doc@.len() <= 4096,
            decreases n - k,
        {
            if counters[k].name.unicode_len() > 4096 || counters[k].doc.unicode_len() > 4096 {
                proof {
                    assert(gsnap[k as int].name@.len() > 4096 || gsnap[k as int].doc@.len()
                        > 4096);
                    assert(!Self::scrape_gates(gsnap, old(self).traces.traces@[ti as int]));
                }
                return Err(ProxyErr::new("Metric name too long to trace"));
            }
            k = k + 1;
        }
        let mut a: usize = 0;
        while a < n
            invariant
                *self == *old(self),
                self.wf(),
                ti < self.traces.traces@.len(),
                ti as int == trace_find(old(self).traces.traces@, jobid@),
                i < old(self).perjob@.len(),
                i as int == job_find(old(self).perjob@, jobid@),
                gsnap == crate::exporter::groups_profile(
                    old(self).perjob@[i as int].exporter.groups@,
                    false,
                ),
                counters@ == gsnap,
                n == counters@.len(),
                0 <= a <= n,
                forall|x: int, y: int|
                    0 <= x < y < counters@.len() && x < a ==> counters@[x].name@
                        != counters@[y].name@,
            decreases n - a,
        {
            let mut b = a + 1;
            while b < n
                invariant
                    *self == *old(self),
                    self.wf(),
                    ti < self.traces.traces@.len(),
                    ti as int == trace_find(old(self).traces.traces@, jobid@),
                    i < old(self).perjob@.len(),
                    i as int == job_find(old(self).perjob@, jobid@),
                    gsnap == crate::exporter::groups_profile(
                        old(self).perjob@[i as int].exporter.groups@,
                        false,
                    ),
                    counters@ == gsnap,
                    n == counters@.len(),
                    0 <= a < b <= n,
                    forall|y: int| a < y < b ==> counters@[a as int].name@ != counters@[y].name@,
                decreases n - b,
            {
                if crate::names::str_eq(counters[a].name.as_str(), counters[b].name.as_str()) {
                    proof {
                        assert(gsnap[a as int].name@ == gsnap[b as int].name@);
                        assert(!crate::snapshot::names_unique(gsnap));
                        assert(!Self::scrape_gates(gsnap, old(self).traces.traces@[ti as int]));
                    }
                    return Err(ProxyErr::new("Duplicate metric in snapshot"));
                }
                b = b + 1;
            }
            a = a + 1;
        }
        let t = &mut self.traces.traces[ti];
        if t.state.counters.len() > 8192 {
            return Err(ProxyErr::new("Trace interning table is full"));
        }
        if t.done {
            return Err(ProxyErr::new("Job is done"));
        }
        proof {
            assert(crate::snapshot::names_unique(counters@));
            assert(counters@ == gsnap);
            assert(Self::scrape_gates(gsnap, old(self).traces.traces@[ti as int]));
        }
        let r = t.push(&counters, now_us, period_us);
        proof {
            assert(r is Ok);
            assert(forall|j: int|
                0 <= j < self.traces.traces@.len() && j != ti as int ==> self.traces.traces@[j]
                    == old(self).traces.traces@[j]);
            assert(forall|j: int|
                0 <= j < self.traces.traces@.len() ==> (#[trigger] self.traces.traces@[j]).wf());
            assert(self.traces.traces@[ti as int].desc.jobid@ == old(self).traces.traces@[ti as int].desc.jobid@);
            assert(forall|x: int, y: int|
                0 <= x < y < self.traces.traces@.len() ==> self.traces.traces@[x].desc.jobid@
                    != self.traces.traces@[y].desc.jobid@);
        }
        r
    }

    /// What a profile batch must satisfy before it is recorded into a
    /// trace: bounded sizes, no duplicate names, room in the interning
    /// table, and a trace still live.  The caps are a policy of this
    /// recorder, far below the format's own field bound: a job with more
    /// label variants than this stops being traced rather than growing its
    /// interning table without limit.
    pub open spec fn scrape_gates(snap: Seq<CounterSnapshot>, t: crate::trace::Trace) -> bool {
        &&& snap.len() <= 4096
        &&& (forall|k: int|
            0 <= k < snap.len() ==> (#[trigger] snap[k]).name@.len() <= 4096 && snap[k].doc@.len()
                <= 4096)
        &&& crate::snapshot::names_unique(snap)
        &&& t.state.counters@.len() <= 8192
        &&& !t.done
    }

    /// Land one remote observation in one job's exporter: an unseen metric
    /// is registered with the observed value, a known one is folded in with
    /// the given semantics.  First sight counts the value exactly once.
    fn push_or_fold(&mut self, idx: usize, snap: &CounterSnapshot, merge: bool)
        requires
            old(self).wf(),
            idx < old(self).perjob@.len(),
        ensures
            final(self).wf(),
            final(self).node_jobid == old(self).node_jobid,
            final(self).aggregator == old(self).aggregator,
            final(self).max_trace_size == old(self).max_trace_size,
            final(self).scrapes@ == old(self).scrapes@,
            final(self).pending_scrapes@ == old(self).pending_scrapes@,
            final(self).traces == old(self).traces,
            final(self).perjob@.len() == old(self).perjob@.len(),
            forall|j: int|
                0 <= j < final(self).perjob@.len() ==> (#[trigger] final(self).perjob@[j]).desc
                    == old(self).perjob@[j].desc && final(self).perjob@[j].counter == old(self).perjob@[j].counter && final(self).perjob@[j].islocal == old(self).perjob@[j].islocal,
            ingested(
                old(self).perjob@[idx as int].exporter,
                final(self).perjob@[idx as int].exporter,
                *snap,
                merge,
            ),
            forall|j: int|
                0 <= j < old(self).perjob@.len() && j != idx ==> (#[trigger] final(self).perjob@[j]).exporter == old(self).perjob@[j].exporter,
    {
        let exists = self.perjob[idx].exporter.get(snap.name.as_str()).is_some();
        let ghost mid = *self;
        let e = &mut self.perjob[idx].exporter;
        if !exists {
            let _ = e.push(snap);
        } else {
            let _ = e.accumulate(snap, merge);
        }
        proof {
            self.lemma_jobs_preserved_after_exporter_update(&mid, idx as int);
        }
    }

    /// What landing one remote sample does to the registry: the two pinned
    /// aggregate jobs and every local job take the observation with set
    /// semantics, every other job's exporter and everything else stand.
    pub open spec fn sample_ingested(pre: Self, post: Self, v: CounterSnapshot) -> bool {
        let mi = job_find(pre.perjob@, main_jobid());
        let ni = job_find(pre.perjob@, pre.node_jobid@);
        &&& post.node_jobid == pre.node_jobid
        &&& post.aggregator == pre.aggregator
        &&& post.max_trace_size == pre.max_trace_size
        &&& post.scrapes@ == pre.scrapes@
        &&& post.pending_scrapes@ == pre.pending_scrapes@
        &&& post.traces == pre.traces
        &&& post.perjob@.len() == pre.perjob@.len()
        &&& (forall|j: int|
            0 <= j < pre.perjob@.len() ==> (#[trigger] post.perjob@[j]).desc == pre.perjob@[j].desc
                && post.perjob@[j].counter == pre.perjob@[j].counter && post.perjob@[j].islocal
                == pre.perjob@[j].islocal)
        &&& (forall|j: int|
            0 <= j < pre.perjob@.len() && (j == mi || j == ni || pre.perjob@[j].islocal)
                ==> ingested((#[trigger] pre.perjob@[j]).exporter, post.perjob@[j].exporter, v, false))
        &&& (forall|j: int|
            0 <= j < pre.perjob@.len() && j != mi && j != ni && !pre.perjob@[j].islocal
                ==> (#[trigger] post.perjob@[j]).exporter == pre.perjob@[j].exporter)
    }

    /// What landing a batch does: the samples take effect one after the
    /// other, each as `sample_ingested` says.
    pub open spec fn samples_ingested(pre: Self, post: Self, samples: Seq<CounterSnapshot>) -> bool
        decreases samples.len(),
    {
        if samples.len() == 0 {
            post == pre
        } else {
            exists|mid: Self|
                #[trigger] Self::sample_ingested(pre, mid, samples[0])
                    && Self::samples_ingested(mid, post, samples.skip(1))
        }
    }

    /// A batch effect extends by one more sample landed at its end.
    proof fn lemma_samples_ingested_push(
        pre: Self,
        mid: Self,
        post: Self,
        samples: Seq<CounterSnapshot>,
        v: CounterSnapshot,
    )
        requires
            Self::samples_ingested(pre, mid, samples),
            Self::sample_ingested(mid, post, v),
        ensures
            Self::samples_ingested(pre, post, samples.push(v)),
        decreases samples.len(),
    {
        if samples.len() == 0 {
            assert(mid == pre);
            assert(samples.push(v)[0] == v);
            assert(samples.push(v).skip(1) =~= Seq::<CounterSnapshot>::empty());
            assert(Self::sample_ingested(pre, post, v));
            assert(Self::samples_ingested(post, post, samples.push(v).skip(1)));
        } else {
            let m0 = choose|m0: Self|
                #[trigger] Self::sample_ingested(pre, m0, samples[0]) && Self::samples_ingested(
                    m0,
                    mid,
                    samples.skip(1),
                );
            Self::lemma_samples_ingested_push(m0, mid, post, samples.skip(1), v);
            assert(samples.push(v)[0] == samples[0]);
            assert(samples.push(v).skip(1) =~= samples.skip(1).push(v));
            assert(Self::sample_ingested(pre, m0, samples.push(v)[0]));
        }
    }

    /// Land one remote text-exposition sample in the two pinned aggregate
    /// jobs and in every local job, with set semantics.
    pub fn ingest_prometheus_sample(&mut self, sample: &CounterSnapshot)
        requires
            old(self).wf(),
        ensures
            final(self).wf(),
            Self::sample_ingested(*old(self), *final(self), *sample),
    {
        proof {
            lemma_job_find(self.perjob@, main_jobid());
            lemma_job_find(self.perjob@, self.node_jobid@);
            reveal_strlit("main");
        }
        let mi = self.find_job("main");
        let node_jobid = self.node_jobid.clone();
        proof {
            assert(mi as int == job_find(old(self).perjob@, main_jobid()));
        }
        self.push_or_fold(mi, sample, false);
        let ghost gmi = job_find(old(self).perjob@, main_jobid());
        let ghost gni = job_find(old(self).perjob@, old(self).node_jobid@);
        proof {
            lemma_job_find(self.perjob@, node_jobid@);
            lemma_job_find(old(self).perjob@, node_jobid@);
            assert(job_find(self.perjob@, node_jobid@) == gni);
        }
        let ni = self.find_job(node_jobid.as_str());
        proof {
            assert(ni as int == gni);
            assert(gni != gmi);
        }
        self.push_or_fold(ni, sample, false);
        let ghost base = *self;
        let m = self.perjob.len();
        let mut j: usize = 0;
        while j < m
            invariant
                self.wf(),
                m == old(self).perjob@.len(),
                0 <= j <= m,
                0 <= gmi < m,
                0 <= gni < m,
                gmi != gni,
                gmi == job_find(old(self).perjob@, main_jobid()),
                gni == job_find(old(self).perjob@, old(self).node_jobid@),
                self.node_jobid == old(self).node_jobid,
                self.aggregator == old(self).aggregator,
                self.max_trace_size == old(self).max_trace_size,
                self.scrapes@ == old(self).scrapes@,
                self.pending_scrapes@ == old(self).pending_scrapes@,
                self.traces == old(self).traces,
                self.perjob@.len() == old(self).perjob@.len(),
                forall|p: int|
                    0 <= p < m ==> (#[trigger] self.perjob@[p]).desc == old(self).perjob@[p].desc
                        && self.perjob@[p].counter == old(self).perjob@[p].counter
                        && self.perjob@[p].islocal == old(self).perjob@[p].islocal,
                !old(self).perjob@[gmi].islocal,
                !old(self).perjob@[gni].islocal,
                ingested(
                    old(self).perjob@[gmi].exporter,
                    self.perjob@[gmi].exporter,
                    *sample,
                    false,
                ),
                ingested(
                    old(self).perjob@[gni].exporter,
                    self.perjob@[gni].exporter,
                    *sample,
                    false,
                ),
                forall|p: int|
                    0 <= p < j && old(self).perjob@[p].islocal ==> ingested(
                        (#[trigger] old(self).perjob@[p]).exporter,
                        self.perjob@[p].exporter,
                        *sample,
                        false,
                    ),
                forall|p: int|
                    j <= p < m && old(self).perjob@[p].islocal ==> (
                    #[trigger] self.perjob@[p]).exporter == old(self).perjob@[p].exporter,
                forall|p: int|
                    0 <= p < m && p != gmi && p != gni && !old(self).perjob@[p].islocal ==> (
                    #[trigger] self.perjob@[p]).exporter == old(self).perjob@[p].exporter,
            decreases m - j,
        {
            if self.perjob[j].islocal {
                self.push_or_fold(j, sample, false);
            }
            j = j + 1;
        }
    }

    /// Fold a batch of remote text-exposition samples into the aggregate
    /// jobs and every local job, with set semantics, one sample after the
    /// other.
    pub fn ingest_prometheus_samples(&mut self, samples: &Vec<CounterSnapshot>) -> (r: Result<
        (),
        ProxyErr,
    >)
        requires
            old(self).wf(),
        ensures
            final(self).wf(),
            r == Result::<(), ProxyErr>::Ok(()),
            Self::samples_ingested(*old(self), *final(self), samples@),
    {
        let n = samples.len();
        let mut i: usize = 0;
        proof {
            assert(samples@.take(0) =~= Seq::<CounterSnapshot>::empty());
        }
        while i < n
            invariant
                self.wf(),
                n == samples@.len(),
                0 <= i <= n,
                Self::samples_ingested(*old(self), *self, samples@.take(i as int)),
            decreases n - i,
        {
            let ghost mid = *self;
            self.ingest_prometheus_sample(&samples[i]);
            proof {
                assert(samples@.take(i + 1 as int) =~= samples@.take(i as int).push(
                    samples@[i as int],
                ));
                Self::lemma_samples_ingested_push(
                    *old(self),
                    mid,
                    *self,
                    samples@.take(i as int),
                    samples@[i as int],
                );
            }
            i = i + 1;
        }
        proof {
            assert(samples@.take(n as int) =~= samples@);
        }
        Ok(())
    }

    /// Apply one pull from a peer proxy.  A cached job absent from the
    /// response has terminated and is released; a job in both has its
    /// previous profile subtracted so remote running counters arrive as
    /// increments; a new job is registered as remote.  The fresh profiles
    /// replace the cache of the source at `idx`.
    /// The jobids of a profile list, in order.
    pub open spec fn profile_ids(ps: Seq<JobProfile>) -> Seq<Seq<char>> {
        ps.map_values(|p: JobProfile| p.desc.jobid@)
    }

    /// Whether a jobid occurs in a list of ids.
    pub open spec fn id_present(ids: Seq<Seq<char>>, jid: Seq<char>) -> bool {
        exists|j: int| 0 <= j < ids.len() && ids[j] == jid
    }

    /// What one release call does to the registry, whatever its outcome: a
    /// held job loses one reference or, at its last one, is evicted with its
    /// trace marked done; a missing or pinned jobid changes nothing.
    pub open spec fn release_effect(pre: Self, post: Self, jid: Seq<char>) -> bool {
        let i = job_find(pre.perjob@, jid);
        let jobs = post.perjob@;
        let oldjobs = pre.perjob@;
        &&& post.node_jobid == pre.node_jobid
        &&& post.aggregator == pre.aggregator
        &&& post.max_trace_size == pre.max_trace_size
        &&& post.scrapes@ == pre.scrapes@
        &&& post.pending_scrapes@ == pre.pending_scrapes@
        &&& (if i < 0 || pre.is_sentinel(jid) {
            jobs == oldjobs
        } else if oldjobs[i].counter > 1 {
            &&& jobs.len() == oldjobs.len()
            &&& jobs[i].counter == oldjobs[i].counter - 1
            &&& jobs[i].desc == oldjobs[i].desc
            &&& jobs[i].exporter == oldjobs[i].exporter
            &&& jobs[i].islocal == oldjobs[i].islocal
            &&& (forall|j: int| 0 <= j < oldjobs.len() && j != i ==> jobs[j] == oldjobs[j])
        } else {
            jobs == oldjobs.remove(i)
        })
        &&& Self::release_trace_effect(pre, post, jid)
    }

    /// Every cached job absent from the response released, in cache order.
    pub open spec fn absent_released(
        pre: Self,
        post: Self,
        cached_ids: Seq<Seq<char>>,
        resp_ids: Seq<Seq<char>>,
    ) -> bool
        decreases cached_ids.len(),
    {
        if cached_ids.len() == 0 {
            post == pre
        } else {
            exists|mid: Self|
                #[trigger] Self::release_step(pre, mid, cached_ids[0], resp_ids)
                    && Self::absent_released(mid, post, cached_ids.skip(1), resp_ids)
        }
    }

    /// One cached jobid handled: released when the response no longer
    /// carries it, untouched otherwise.
    pub open spec fn release_step(
        pre: Self,
        post: Self,
        jid: Seq<char>,
        resp_ids: Seq<Seq<char>>,
    ) -> bool {
        if Self::id_present(resp_ids, jid) {
            post == pre
        } else {
            Self::release_effect(pre, post, jid)
        }
    }

    /// The chain of releases extends by one more cached jobid at its end.
    proof fn lemma_absent_released_push(
        pre: Self,
        mid: Self,
        post: Self,
        cached_ids: Seq<Seq<char>>,
        jid: Seq<char>,
        resp_ids: Seq<Seq<char>>,
    )
        requires
            Self::absent_released(pre, mid, cached_ids, resp_ids),
            Self::release_step(mid, post, jid, resp_ids),
        ensures
            Self::absent_released(pre, post, cached_ids.push(jid), resp_ids),
        decreases cached_ids.len(),
    {
        if cached_ids.len() == 0 {
            assert(mid == pre);
            assert(cached_ids.push(jid)[0] == jid);
            assert(cached_ids.push(jid).skip(1) =~= Seq::<Seq<char>>::empty());
            assert(Self::release_step(pre, post, cached_ids.push(jid)[0], resp_ids));
            assert(Self::absent_released(post, post, cached_ids.push(jid).skip(1), resp_ids));
        } else {
            let m0 = choose|m0: Self|
                #[trigger] Self::release_step(pre, m0, cached_ids[0], resp_ids)
                    && Self::absent_released(m0, mid, cached_ids.skip(1), resp_ids);
            Self::lemma_absent_released_push(m0, mid, post, cached_ids.skip(1), jid, resp_ids);
            assert(cached_ids.push(jid)[0] == cached_ids[0]);
            assert(cached_ids.push(jid).skip(1) =~= cached_ids.skip(1).push(jid));
            assert(Self::release_step(pre, m0, cached_ids.push(jid)[0], resp_ids));
        }
    }

    /// What one acquisition with remote attribution does to the job table:
    /// a known jobid gains a reference, a fresh one is appended non-local
    /// with an empty exporter.
    pub open spec fn resolve_remote_effect(pre: Self, post: Self, desc: JobDesc) -> bool {
        let i = job_find(pre.perjob@, desc.jobid@);
        let jobs = post.perjob@;
        let oldjobs = pre.perjob@;
        &&& post.node_jobid == pre.node_jobid
        &&& post.aggregator == pre.aggregator
        &&& post.max_trace_size == pre.max_trace_size
        &&& post.scrapes@ == pre.scrapes@
        &&& (if i >= 0 {
            &&& jobs.len() == oldjobs.len()
            &&& jobs[i].counter == crate::util::sat_add_u64(oldjobs[i].counter as int, 1)
            &&& jobs[i].islocal == oldjobs[i].islocal
            &&& jobs[i].desc == oldjobs[i].desc
            &&& jobs[i].exporter == oldjobs[i].exporter
            &&& (forall|j: int| 0 <= j < oldjobs.len() && j != i ==> jobs[j] == oldjobs[j])
        } else {
            &&& jobs.len() == oldjobs.len() + 1
            &&& jobs.drop_last() == oldjobs
            &&& jobs.last().counter == 1
            &&& jobs.last().islocal == false
            &&& jobs.last().desc == desc
            &&& jobs.last().exporter.groups@.len() == 0
        })
    }

    /// The registration half of one pulled profile: a jobid the cache does
    /// not carry is resolved remotely (when its fields fit the registry),
    /// anything else leaves the registry standing.
    pub open spec fn pull_register_step(
        pre: Self,
        post: Self,
        cache: Seq<JobProfile>,
        desc: JobDesc,
    ) -> bool {
        if crate::store::profile_find(cache, desc.jobid@) < 0 && crate::ingest::job_fits(desc) {
            Self::resolve_remote_effect(pre, post, desc)
        } else {
            post == pre
        }
    }

    /// Everything but the one job's exporter stands.
    pub open spec fn job_frames(pre: Self, post: Self) -> bool {
        &&& post.node_jobid == pre.node_jobid
        &&& post.aggregator == pre.aggregator
        &&& post.max_trace_size == pre.max_trace_size
        &&& post.scrapes@ == pre.scrapes@
        &&& post.pending_scrapes@ == pre.pending_scrapes@
        &&& post.traces == pre.traces
        &&& post.perjob@.len() == pre.perjob@.len()
        &&& (forall|j: int|
            0 <= j < pre.perjob@.len() ==> (#[trigger] post.perjob@[j]).desc == pre.perjob@[j].desc
                && post.perjob@[j].counter == pre.perjob@[j].counter && post.perjob@[j].islocal
                == pre.perjob@[j].islocal)
    }

    /// One pulled profile applied: the jobid is registered when unknown and
    /// uncached, the cached previous profile is subtracted so running
    /// counters arrive as increments, and the (possibly diffed) counters are
    /// folded into that job's exporter with merge semantics.
    pub open spec fn pull_one_applied(
        pre: Self,
        post: Self,
        cache: Seq<JobProfile>,
        p: JobProfile,
    ) -> bool {
        let ci = crate::store::profile_find(cache, p.desc.jobid@);
        let diffed = if ci >= 0 && crate::jobs::deltas_ok(p.counters@, cache[ci].counters@) {
            crate::jobs::apply_deltas(p.counters@, cache[ci].counters@)
        } else {
            p.counters@
        };
        exists|mid: Self|
            #[trigger] Self::pull_register_step(pre, mid, cache, p.desc) && ({
                let ji = job_find(mid.perjob@, p.desc.jobid@);
                if ji >= 0 {
                    &&& Self::job_frames(mid, post)
                    &&& crate::exporter::folded_all(
                        mid.perjob@[ji].exporter,
                        post.perjob@[ji].exporter,
                        diffed,
                        true,
                    )
                    &&& (forall|j: int|
                        0 <= j < mid.perjob@.len() && j != ji ==> (#[trigger] post.perjob@[j]).exporter
                            == mid.perjob@[j].exporter)
                } else {
                    post == mid
                }
            })
    }

    /// A whole pull applied, one response profile after the other, each
    /// diffed against the same pre-pull cache.
    pub open spec fn pull_applied(
        pre: Self,
        post: Self,
        cache: Seq<JobProfile>,
        resp: Seq<JobProfile>,
    ) -> bool
        decreases resp.len(),
    {
        if resp.len() == 0 {
            post == pre
        } else {
            exists|mid: Self|
                #[trigger] Self::pull_one_applied(pre, mid, cache, resp[0]) && Self::pull_applied(
                    mid,
                    post,
                    cache,
                    resp.skip(1),
                )
        }
    }

    /// The chain of applied profiles extends by one more at its end.
    proof fn lemma_pull_applied_push(
        pre: Self,
        mid: Self,
        post: Self,
        cache: Seq<JobProfile>,
        resp: Seq<JobProfile>,
        p: JobProfile,
    )
        requires
            Self::pull_applied(pre, mid, cache, resp),
            Self::pull_one_applied(mid, post, cache, p),
        ensures
            Self::pull_applied(pre, post, cache, resp.push(p)),
        decreases resp.len(),
    {
        if resp.len() == 0 {
            assert(mid == pre);
            assert(resp.push(p)[0] == p);
            assert(resp.push(p).skip(1) =~= Seq::<JobProfile>::empty());
            assert(Self::pull_one_applied(pre, post, cache, resp.push(p)[0]));
            assert(Self::pull_applied(post, post, cache, resp.push(p).skip(1)));
        } else {
            let m0 = choose|m0: Self|
                #[trigger] Self::pull_one_applied(pre, m0, cache, resp[0]) && Self::pull_applied(
                    m0,
                    mid,
                    cache,
                    resp.skip(1),
                );
            Self::lemma_pull_applied_push(m0, mid, post, cache, resp.skip(1), p);
            assert(resp.push(p)[0] == resp[0]);
            assert(resp.push(p).skip(1) =~= resp.skip(1).push(p));
            assert(Self::pull_one_applied(pre, m0, cache, resp.push(p)[0]));
        }
    }

    #[verifier::loop_isolation(false)]
    pub fn apply_proxy_scrape(
        &mut self,
        idx: usize,
        profiles: Vec<JobProfile>,
        now_us: u64,
    ) -> (r: Result<(), ProxyErr>)
        requires
            old(self).wf(),
            idx < old(self).scrapes@.len(),
        ensures
            final(self).wf(),
            final(self).node_jobid == old(self).node_jobid,
            final(self).aggregator == old(self).aggregator,
            final(self).max_trace_size == old(self).max_trace_size,
            r == Result::<(), ProxyErr>::Ok(()),
            final(self).scrapes@.len() == old(self).scrapes@.len(),
            forall|j: int|
                0 <= j < old(self).scrapes@.len() && j != idx as int ==> final(self).scrapes@[j]
                    == old(self).scrapes@[j],
            final(self).scrapes@[idx as int].target_url == old(self).scrapes@[idx as int].target_url,
            final(self).scrapes@[idx as int].period_us == old(self).scrapes@[idx as int].period_us,
            final(self).scrapes@[idx as int].last_scrape == old(self).scrapes@[idx as int].last_scrape,
            final(self).scrapes@[idx as int].ttype == old(self).scrapes@[idx as int].ttype,
            // The undiffed profiles of this pull replace the cache whole.
            final(self).scrapes@[idx as int].state@.len() == profiles@.len(),
            forall|k: int|
                0 <= k < profiles@.len() ==> (#[trigger] final(self).scrapes@[idx as int].state@[k]).desc
                    == profiles@[k].desc && final(self).scrapes@[idx as int].state@[k].counters@
                    == profiles@[k].counters@,
            // The pull's job effects: cached jobs absent from the response
            // are released in cache order; then each response profile is
            // diffed against the pre-pull cache and folded in, with unknown
            // jobids registered as remote jobs.
            exists|mid: ExporterFactory, late: ExporterFactory|
                #![trigger Self::absent_released(
                    *old(self),
                    mid,
                    Self::profile_ids(old(self).scrapes@[idx as int].state@),
                    Self::profile_ids(profiles@),
                ), Self::pull_applied(
                    mid,
                    late,
                    old(self).scrapes@[idx as int].state@,
                    profiles@,
                )]
                Self::absent_released(
                    *old(self),
                    mid,
                    Self::profile_ids(old(self).scrapes@[idx as int].state@),
                    Self::profile_ids(profiles@),
                ) && Self::pull_applied(
                    mid,
                    late,
                    old(self).scrapes@[idx as int].state@,
                    profiles@,
                ) && final(self).perjob@ == late.perjob@ && final(self).traces == late.traces
                    && final(self).pending_scrapes@ == late.pending_scrapes@,
    {
        let ghost orig = profiles@;
        let ghost cache_pre = self.scrapes@[idx as int].state@;
        let ghost cids = Self::profile_ids(cache_pre);
        let ghost rids = Self::profile_ids(orig);
        // Jobs cached from the previous pull but absent now have left.
        let cached = crate::scrape::clone_profiles(&self.scrapes[idx].state);
        let n = cached.len();
        let mut i: usize = 0;
        proof {
            assert(forall|k: int|
                0 <= k < n ==> cids[k] == (#[trigger] cached@[k]).desc.jobid@);
            assert(forall|k: int|
                0 <= k < orig.len() ==> rids[k] == (#[trigger] orig[k]).desc.jobid@);
            assert(cids.len() == cache_pre.len());
            assert(cids.take(0) =~= Seq::<Seq<char>>::empty());
            assert(Self::absent_released(*old(self), *self, cids.take(0), rids));
        }
        while i < n
            invariant
                self.wf(),
                n == cached@.len(),
                0 <= i <= n,
                idx < self.scrapes@.len(),
                self.node_jobid == old(self).node_jobid,
                self.aggregator == old(self).aggregator,
                self.max_trace_size == old(self).max_trace_size,
                self.scrapes@ == old(self).scrapes@,
                profiles@ == orig,
                cids.len() == n as int,
                Self::absent_released(*old(self), *self, cids.take(i as int), rids),
            decreases n - i,
        {
            let ghost pre_it = *self;
            let mut present = false;
            let m = profiles.len();
            let mut j: usize = 0;
            while j < m
                invariant
                    m == profiles@.len(),
                    profiles@ == orig,
                    0 <= j <= m,
                    0 <= i < cached@.len(),
                    present <==> exists|j2: int|
                        0 <= j2 < j && orig[j2].desc.jobid@ == cached@[i as int].desc.jobid@,
                decreases m - j,
            {
                if crate::names::str_eq(
                    profiles[j].desc.jobid.as_str(),
                    cached[i].desc.jobid.as_str(),
                ) {
                    present = true;
                    proof {
                        assert(orig[j as int].desc.jobid@ == cached@[i as int].desc.jobid@);
                    }
                }
                j = j + 1;
            }
            proof {
                let jid = cached@[i as int].desc.jobid@;
                assert(rids.len() == orig.len());
                if present {
                    let j2 = choose|j2: int|
                        0 <= j2 < orig.len() && orig[j2].desc.jobid@ == jid;
                    assert(rids[j2] == jid);
                    assert(Self::id_present(rids, jid));
                }
                if Self::id_present(rids, jid) {
                    let j2 = choose|j2: int| 0 <= j2 < rids.len() && rids[j2] == jid;
                    assert(orig[j2].desc.jobid@ == jid);
                    assert(present);
                }
                assert(present <==> Self::id_present(rids, jid));
            }
            if !present {
                let _ = self.relax_job(&cached[i].desc);
                proof {
                    let jid = cached@[i as int].desc.jobid@;
                    assert(Self::release_effect(pre_it, *self, jid));
                }
            }
            proof {
                let jid = cached@[i as int].desc.jobid@;
                assert(Self::release_step(pre_it, *self, jid, rids));
                Self::lemma_absent_released_push(
                    *old(self),
                    pre_it,
                    *self,
                    cids.take(i as int),
                    jid,
                    rids,
                );
                assert(cids.take(i + 1 as int) =~= cids.take(i as int).push(cids[i as int]));
            }
            i = i + 1;
        }

        // Diff each remote profile against the cache and fold it in.
        let ghost phase1 = *self;
        proof {
            assert(cids.take(n as int) =~= cids);
            assert(Self::absent_released(*old(self), phase1, cids, rids));
            assert(Self::pull_applied(phase1, *self, cache_pre, orig.take(0)));
        }
        let mut fresh: Vec<JobProfile> = Vec::new();
        let ghost total = orig.len();
        let mut profiles = profiles;
        proof {
            assert(profiles@ =~= orig.skip(0));
        }
        while profiles.len() > 0
            invariant
                self.wf(),
                idx < self.scrapes@.len(),
                self.node_jobid == old(self).node_jobid,
                self.aggregator == old(self).aggregator,
                self.max_trace_size == old(self).max_trace_size,
                self.scrapes@ == old(self).scrapes@,
                total == orig.len(),
                fresh@.len() + profiles@.len() == total,
                profiles@ =~= orig.skip(fresh@.len() as int),
                forall|k: int|
                    0 <= k < fresh@.len() ==> (#[trigger] fresh@[k]).desc == orig[k].desc
                        && fresh@[k].counters@ == orig[k].counters@,
                Self::pull_applied(phase1, *self, cache_pre, orig.take(fresh@.len() as int)),
            decreases profiles@.len(),
        {
            let ghost done = fresh@.len() as int;
            let ghost pre = profiles@;
            let ghost pit = *self;
            let mut p = profiles.remove(0);
            proof {
                assert(0 <= done < orig.len());
                assert(orig.subrange(done, orig.len() as int)[0] == orig[done]);
                assert(p == orig[done]);
            }
            let ghost p0 = p;
            let cur = p.clone();
            let ci = {
                let cache = &self.scrapes[idx].state;
                let mut found = cache.len();
                let m = cache.len();
                let mut j: usize = 0;
                while j < m
                    invariant
                        m == cache@.len(),
                        cache@ == cache_pre,
                        0 <= j <= m,
                        found == m ==> forall|j2: int|
                            0 <= j2 < j ==> cache@[j2].desc.jobid@ != p.desc.jobid@,
                        found < m ==> cache@[found as int].desc.jobid@ == p.desc.jobid@ && (forall|
                            j2: int,
                        |
                            0 <= j2 < found ==> cache@[j2].desc.jobid@ != p.desc.jobid@) && found
                            < j,
                        found == m || found < m,
                    decreases m - j,
                {
                    if found == m && crate::names::str_eq(
                        cache[j].desc.jobid.as_str(),
                        p.desc.jobid.as_str(),
                    ) {
                        found = j;
                    }
                    j = j + 1;
                }
                found
            };
            proof {
                crate::store::lemma_profile_find(cache_pre, p0.desc.jobid@);
                if ci < cache_pre.len() {
                    assert(ci as int == crate::store::profile_find(cache_pre, p0.desc.jobid@));
                } else {
                    assert(crate::store::profile_find(cache_pre, p0.desc.jobid@) < 0);
                }
            }
            let ghost spec_ci = crate::store::profile_find(cache_pre, p0.desc.jobid@);
            let ghost diffed = if spec_ci >= 0 && crate::jobs::deltas_ok(
                p0.counters@,
                cache_pre[spec_ci].counters@,
            ) {
                crate::jobs::apply_deltas(p0.counters@, cache_pre[spec_ci].counters@)
            } else {
                p0.counters@
            };
            if ci < self.scrapes[idx].state.len() {
                let prev = self.scrapes[idx].state[ci].clone();
                let _ = p.substract(&prev);
                proof {
                    assert(prev.counters@ == cache_pre[spec_ci].counters@);
                    assert(p.counters@ == diffed);
                    assert(Self::pull_register_step(pit, *self, cache_pre, p0.desc));
                }
            } else {
                if p.desc.jobid.unicode_len() <= 4096 && p.desc.command.unicode_len() <= 4096
                    && p.desc.nodelist.unicode_len() <= 4096 && p.desc.partition.unicode_len()
                    <= 4096 && p.desc.cluster.unicode_len() <= 4096
                    && p.desc.run_dir.unicode_len() <= 4096 {
                    let _ = self.resolve_job(&p.desc, false, now_us);
                    proof {
                        assert(crate::ingest::job_fits(p0.desc));
                        assert(Self::resolve_remote_effect(pit, *self, p0.desc));
                        assert(Self::pull_register_step(pit, *self, cache_pre, p0.desc));
                    }
                } else {
                    proof {
                        assert(!crate::ingest::job_fits(p0.desc));
                        assert(Self::pull_register_step(pit, *self, cache_pre, p0.desc));
                    }
                }
                proof {
                    assert(p.counters@ == diffed);
                }
            }
            let ghost midstate = *self;
            // Fold the (possibly diffed) counters into the job's exporter.
            proof {
                lemma_job_find(self.perjob@, p0.desc.jobid@);
            }
            let ji = self.find_job(p.desc.jobid.as_str());
            proof {
                if ji < self.perjob.len() {
                    assert(ji as int == job_find(midstate.perjob@, p0.desc.jobid@));
                } else {
                    assert(job_find(midstate.perjob@, p0.desc.jobid@) < 0);
                }
            }
            if ji < self.perjob.len() {
                let cn = p.counters.len();
                let mut k: usize = 0;
                proof {
                    assert(p.counters@.take(0) =~= Seq::<CounterSnapshot>::empty());
                }
                while k < cn
                    invariant
                        self.wf(),
                        cn == p.counters@.len(),
                        p.counters@ == diffed,
                        0 <= k <= cn,
                        idx < self.scrapes@.len(),
                        ji < self.perjob@.len(),
                        self.node_jobid == old(self).node_jobid,
                        self.aggregator == old(self).aggregator,
                        self.max_trace_size == old(self).max_trace_size,
                        self.scrapes@ == old(self).scrapes@,
                        Self::job_frames(midstate, *self),
                        crate::exporter::folded_all(
                            midstate.perjob@[ji as int].exporter,
                            self.perjob@[ji as int].exporter,
                            diffed.take(k as int),
                            true,
                        ),
                        forall|j: int|
                            0 <= j < midstate.perjob@.len() && j != ji as int ==> (
                            #[trigger] self.perjob@[j]).exporter == midstate.perjob@[j].exporter,
                    decreases cn - k,
                {
                    let ghost estate = self.perjob@[ji as int].exporter;
                    let snap = p.counters[k].clone();
                    if ji < self.perjob.len() {
                        self.push_or_fold(ji, &snap, true);
                    }
                    proof {
                        crate::exporter::lemma_folded_all_push(
                            midstate.perjob@[ji as int].exporter,
                            estate,
                            self.perjob@[ji as int].exporter,
                            diffed.take(k as int),
                            diffed[k as int],
                            true,
                        );
                        assert(diffed.take(k + 1 as int) =~= diffed.take(k as int).push(
                            diffed[k as int],
                        ));
                    }
                    k = k + 1;
                }
                proof {
                    assert(diffed.take(cn as int) =~= diffed);
                    assert(Self::pull_one_applied(pit, *self, cache_pre, p0));
                }
            } else {
                proof {
                    assert(*self == midstate);
                    assert(Self::pull_one_applied(pit, *self, cache_pre, p0));
                }
            }
            // Remember the undiffed profile for the next pull.
            fresh.push(cur);
            proof {
                assert(profiles@ =~= orig.skip(fresh@.len() as int));
                Self::lemma_pull_applied_push(phase1, pit, *self, cache_pre, orig.take(done), p0);
                assert(orig.take(done + 1) =~= orig.take(done).push(orig[done]));
            }
        }
        proof {
            assert(fresh@.len() == total);
            assert(orig.take(total as int) =~= orig);
        }
        let ghost late = *self;
        let tgt = &mut self.scrapes[idx];
        tgt.state = fresh;
        proof {
            assert(forall|j: int|
                0 <= j < self.scrapes@.len() && j != idx as int ==> self.scrapes@[j]
                    == old(self).scrapes@[j]);
            assert(Self::absent_released(*old(self), phase1, cids, rids));
            assert(Self::pull_applied(phase1, late, cache_pre, orig));
            assert(self.perjob@ == late.perjob@);
            assert(self.traces == late.traces);
            assert(self.pending_scrapes@ == late.pending_scrapes@);
        }
        Ok(())
    }
}

/// Two job lists with the same identifiers in the same places are found
/// alike.
pub proof fn lemma_job_find_same(a: Seq<PerJobRefcount>, b: Seq<PerJobRefcount>, jobid: Seq<char>)
    requires
        a.len() == b.len(),
        forall|i: int| 0 <= i < a.len() ==> a[i].desc.jobid@ == #[trigger] b[i].desc.jobid@,
    ensures
        job_find(a, jobid) == job_find(b, jobid),
    decreases a.len(),
{
    if a.len() > 0 {
        assert(a[0].desc.jobid@ == b[0].desc.jobid@);
        assert forall|i: int| 0 <= i < a.drop_first().len() implies a.drop_first()[i].desc.jobid@
            == #[trigger] b.drop_first()[i].desc.jobid@ by {
            assert(a.drop_first()[i] == a[i + 1]);
            assert(b.drop_first()[i] == b[i + 1]);
        }
        lemma_job_find_same(a.drop_first(), b.drop_first(), jobid);
    }
}

/// The running reference count after a sequence of acquisitions (true) and
/// releases (false).
pub open spec fn refcount_after(ops: Seq<bool>) -> int
    decreases ops.len(),
{
    if ops.len() == 0 {
        0
    } else {
        refcount_after(ops.drop_last()) + (if ops.last() {
            1int
        } else {
            -1int
        })
    }
}

/// How many of the operations acquire.
pub open spec fn count_acquires(ops: Seq<bool>) -> int
    decreases ops.len(),
{
    if ops.len() == 0 {
        0
    } else {
        count_acquires(ops.drop_last()) + (if ops.last() {
            1int
        } else {
            0int
        })
    }
}

/// Refcount discipline: after equally many acquisitions and releases of a
/// job, in any interleaving, its running reference count is back to zero.
/// By the release contract, the release that reaches zero is the one that
/// evicts the job and hands its profile out for persisting.
pub proof fn lemma_refcount_discipline(ops: Seq<bool>)
    requires
        count_acquires(ops) * 2 == ops.len(),
    ensures
        refcount_after(ops) == 0,
    decreases ops.len(),
{
    lemma_refcount_net(ops);
}

/// The running count is the number of acquisitions minus the releases.
proof fn lemma_refcount_net(ops: Seq<bool>)
    ensures
        refcount_after(ops) == count_acquires(ops) - (ops.len() - count_acquires(ops)),
    decreases ops.len(),
{
    if ops.len() > 0 {
        lemma_refcount_net(ops.drop_last());
    }
}

/// Finding is stable under appending a new job.
pub proof fn lemma_job_find_push(js: Seq<PerJobRefcount>, j: PerJobRefcount, jobid: Seq<char>)
    ensures
        job_find(js, jobid) >= 0 ==> job_find(js.push(j), jobid) == job_find(js, jobid),
        job_find(js, jobid) < 0 && j.desc.jobid@ == jobid ==> job_find(js.push(j), jobid)
            == js.len(),
        job_find(js, jobid) < 0 && j.desc.jobid@ != jobid ==> job_find(js.push(j), jobid) < 0,
    decreases js.len(),
{
    if js.len() == 0 {
        assert(js.push(j)[0] == j);
        assert(js.push(j).len() == 1);
        assert(js.push(j).drop_first() =~= js);
    } else {
        lemma_job_find_push(js.drop_first(), j, jobid);
        assert(js.push(j).drop_first() =~= js.drop_first().push(j));
    }
}

} // verus!
