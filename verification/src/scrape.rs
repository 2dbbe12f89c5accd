//! Scrape sources and the scheduler's decisions: when a source is due, how
//! remote samples become local counters, and which sources a failure
//! evicts.

use vstd::prelude::*;

use crate::counters::CounterType;
use crate::jobs::JobProfile;
use crate::errors::ProxyErr;
use crate::names::str_eq;
use crate::snapshot::CounterSnapshot;
use crate::util::sub_sat_u64;

verus! {

/// The closed set of scrape kinds the scheduler drives.
#[derive(Debug, PartialEq)]
pub enum ScraperType {
    Proxy,
    Prometheus,
    System,
    Trace { jobid: String },
    Ftio { jobid: String },
}

impl Clone for ScraperType {
    /// An equal copy of this kind.
    fn clone(&self) -> (r: Self)
        ensures
            r == *self,
    {
        match self {
            ScraperType::Proxy => ScraperType::Proxy,
            ScraperType::Prometheus => ScraperType::Prometheus,
            ScraperType::System => ScraperType::System,
            ScraperType::Trace { jobid } => ScraperType::Trace { jobid: jobid.clone() },
            ScraperType::Ftio { jobid } => ScraperType::Ftio { jobid: jobid.clone() },
        }
    }
}

/// A failing source survives only when it is internal: system, trace and
/// surrogate-model sources are kept, remote proxy and text-exposition
/// sources are evicted.
pub open spec fn keeps_on_failure(t: ScraperType) -> bool {
    match t {
        ScraperType::Proxy => false,
        ScraperType::Prometheus => false,
        ScraperType::System => true,
        ScraperType::Trace { .. } => true,
        ScraperType::Ftio { .. } => true,
    }
}

/// One pull source: its target, the previous per-job profiles it pulled,
/// its period and the time it last ran.
pub struct ProxyScraper {
    pub target_url: String,
    pub state: Vec<JobProfile>,
    pub period_us: u64,
    pub last_scrape: u64,
    pub ttype: ScraperType,
}

/// What a listing reports about one source.
#[derive(Debug, PartialEq)]
pub struct ProxyScraperSnapshot {
    pub target_url: String,
    pub period_us: u64,
    pub last_scrape_s: u64,
}

impl ProxyScraper {
    /// A source for a trace of one job, sampled every half second.
    pub fn newtrace(jobid: &str) -> (r: ProxyScraper)
        ensures
            r.ttype == (ScraperType::Trace { jobid: r.target_url }),
            r.period_us == 500_000,
            r.last_scrape == 0,
            r.state@.len() == 0,
            r.target_url@ == "/trace."@ + jobid@,
    {
        let mut url = String::new();
        url.append("/trace.");
        url.append(jobid);
        proof {
            reveal_strlit("/trace.");
        }
        ProxyScraper {
            target_url: url.clone(),
            state: Vec::new(),
            period_us: 500_000,
            last_scrape: 0,
            ttype: ScraperType::Trace { jobid: url },
        }
    }

    /// A source running the surrogate-model helper for one job, every
    /// thirty seconds.
    pub fn newftio(jobid: &str) -> (r: ProxyScraper)
        ensures
            r.ttype == (ScraperType::Ftio { jobid: r.target_url }),
            r.period_us == 30_000_000,
            r.last_scrape == 0,
            r.state@.len() == 0,
            r.target_url@ == "/FTIO/"@ + jobid@,
    {
        let mut url = String::new();
        url.append("/FTIO/");
        url.append(jobid);
        proof {
            reveal_strlit("/FTIO/");
        }
        ProxyScraper {
            target_url: url.clone(),
            state: Vec::new(),
            period_us: 30_000_000,
            last_scrape: 0,
            ttype: ScraperType::Ftio { jobid: url },
        }
    }

    /// A source is due when at least its period has passed since it last
    /// ran.
    pub fn should_scrape(&self, now_us: u64) -> (r: bool)
        ensures
            r == (now_us >= self.last_scrape + self.period_us),
    {
        sub_sat_u64(now_us, self.last_scrape) >= self.period_us && now_us >= self.last_scrape
    }

    /// What a listing reports: the target, the period, and the last run in
    /// seconds.
    pub fn snapshot(&self) -> (r: ProxyScraperSnapshot)
        ensures
            r.target_url@ == self.target_url@,
            r.period_us == self.period_us,
            r.last_scrape_s == self.last_scrape / 1_000_000,
    {
        ProxyScraperSnapshot {
            target_url: self.target_url.clone(),
            period_us: self.period_us,
            last_scrape_s: self.last_scrape / 1_000_000,
        }
    }
}

/// The URL scheme marker of an absolute target.
pub fn has_http_prefix(url: &str) -> (r: bool)
    ensures
        r == (url@.len() >= 4 && url@.subrange(0, 4) == "http"@),
{
    proof {
        reveal_strlit("http");
    }
    if url.unicode_len() < 4 {
        return false;
    }
    str_eq(url.substring_char(0, 4), "http")
}

/// Classify a scrape target from what its probes answered: the sentinel
/// names the local system sampler; a target whose marker page is live is a
/// peer proxy, pulled at its job endpoint; one whose text exposition
/// answers is a third-party exporter; anything else is refused.  A bare
/// host gains the URL scheme first.
pub fn detect_kind(target_url: &str, proxy_probe_ok: bool, prom_probe_ok: bool) -> (r: Result<
    (String, ScraperType),
    ProxyErr,
>)
    ensures
        ({
            let base = if target_url@.len() >= 4 && target_url@.subrange(0, 4) == "http"@ {
                target_url@
            } else {
                "http://"@ + target_url@
            };
            if target_url@ == "/system"@ {
                r is Ok && r->Ok_0.1 == ScraperType::System && r->Ok_0.0@ == target_url@
            } else if proxy_probe_ok {
                r is Ok && r->Ok_0.1 == ScraperType::Proxy && r->Ok_0.0@ == base + "/job"@
            } else if prom_probe_ok {
                r is Ok && r->Ok_0.1 == ScraperType::Prometheus && r->Ok_0.0@ == base
                    + "/metrics"@
            } else {
                r is Err
            }
        }),
{
    proof {
        reveal_strlit("/system");
    }
    if str_eq(target_url, "/system") {
        return Ok((target_url.to_owned(), ScraperType::System));
    }
    let mut url = if has_http_prefix(target_url) {
        target_url.to_owned()
    } else {
        let mut u = String::new();
        u.append("http://");
        u.append(target_url);
        u
    };
    if proxy_probe_ok {
        url.append("/job");
        Ok((url, ScraperType::Proxy))
    } else if prom_probe_ok {
        url.append("/metrics");
        Ok((url, ScraperType::Prometheus))
    } else {
        Err(ProxyErr::new("Failed to determine the kind of the scrape target"))
    }
}

/// The full metric name of a remote text-exposition sample: the bare metric,
/// or the metric with its rendered label block.
pub fn prometheus_sample_name(metric: &str, labels: &str) -> (r: String)
    ensures
        labels@.len() == 0 ==> r@ == metric@,
        labels@.len() > 0 ==> r@ == metric@ + "{"@ + labels@ + "}"@,
{
    if labels.is_empty() {
        metric.to_owned()
    } else {
        let mut out = metric.to_owned();
        out.append("{");
        out.append(labels);
        out.append("}");
        out
    }
}

/// A remote sample as a local snapshot: a remote counter keeps its value
/// and is stamped with the local clock; a remote gauge becomes a one-hit
/// observation.
pub fn prometheus_entry(
    name: String,
    doc: String,
    is_counter: bool,
    value: i64,
    now_s: u64,
) -> (r: CounterSnapshot)
    ensures
        r.name == name,
        r.doc == doc,
        is_counter ==> r.ctype == (CounterType::Counter { ts: now_s, value }),
        !is_counter ==> r.ctype == (CounterType::Gauge {
            min: 0i64,
            max: 0i64,
            hits: 1u64,
            total: value,
        }),
{
    let ctype = if is_counter {
        CounterType::Counter { ts: now_s, value }
    } else {
        CounterType::Gauge { min: 0, max: 0, hits: 1, total: value }
    };
    CounterSnapshot { name, doc, ctype }
}

/// `url` occurs in the failure list.
pub open spec fn in_failed(failed: Seq<Seq<char>>, url: Seq<char>) -> bool {
    exists|i: int| 0 <= i < failed.len() && failed[i] == url
}

/// The sources surviving a tick: everything but the remote sources whose
/// pull failed.
pub open spec fn surviving(ss: Seq<ProxyScraper>, failed: Seq<Seq<char>>) -> Seq<ProxyScraper>
    decreases ss.len(),
{
    if ss.len() == 0 {
        Seq::empty()
    } else {
        surviving(ss.drop_last(), failed) + (if in_failed(failed, ss.last().target_url@)
            && !keeps_on_failure(ss.last().ttype) {
            Seq::empty()
        } else {
            seq![ss.last()]
        })
    }
}

/// Remove every remote source whose pull failed this tick; internal
/// sources survive their failures.
pub fn evict_failed(scrapes: &mut Vec<ProxyScraper>, failed: &Vec<String>)
    ensures
        final(scrapes)@ == surviving(old(scrapes)@, failed@.map_values(|s: String| s@)),
{
    let ghost fview = failed@.map_values(|s: String| s@);
    let ghost orig = old(scrapes)@;
    let mut kept: Vec<ProxyScraper> = Vec::new();
    proof {
        assert(kept@ =~= surviving(orig.take(0), fview));
        assert(scrapes@ =~= orig.skip(0));
    }
    let ghost mut done: int = 0;
    while scrapes.len() > 0
        invariant
            0 <= done <= orig.len(),
            scrapes@ == orig.skip(done),
            kept@ =~= surviving(orig.take(done), fview),
            fview == failed@.map_values(|s: String| s@),
        decreases scrapes@.len(),
    {
        let s = scrapes.remove(0);
        proof {
            assert(orig.skip(done)[0] == orig[done]);
            assert(scrapes@ =~= orig.skip(done + 1));
            let t1 = orig.take(done + 1);
            assert(t1.drop_last() =~= orig.take(done));
            assert(t1.last() == orig[done]);
        }
        let keep = match &s.ttype {
            ScraperType::Proxy => false,
            ScraperType::Prometheus => false,
            _ => true,
        };
        let failed_here = contains_url(failed, s.target_url.as_str());
        if keep || !failed_here {
            kept.push(s);
            proof {
                assert(kept@ =~= surviving(orig.take(done + 1), fview));
            }
        } else {
            proof {
                assert(kept@ =~= surviving(orig.take(done + 1), fview));
            }
        }
        proof {
            done = done + 1;
        }
    }
    proof {
        assert(scrapes@.len() == 0);
        assert(done == orig.len());
        assert(orig.take(orig.len() as int) =~= orig);
    }
    *scrapes = kept;
}

/// The eviction rule: after a tick of a registry with distinct targets, a
/// remote proxy or text-exposition source whose pull failed is gone, and
/// internal sources are all still there.
pub proof fn lemma_scrape_eviction(ss: Seq<ProxyScraper>, failed: Seq<Seq<char>>, i: int)
    requires
        0 <= i < ss.len(),
        forall|a: int, b: int|
            0 <= a < b < ss.len() ==> ss[a].target_url@ != ss[b].target_url@,
    ensures
        in_failed(failed, ss[i].target_url@) && !keeps_on_failure(ss[i].ttype) ==> forall|j: int|
            0 <= j < surviving(ss, failed).len() ==> (#[trigger] surviving(ss, failed)[j]).target_url@
                != ss[i].target_url@,
        keeps_on_failure(ss[i].ttype) ==> exists|j: int|
            0 <= j < surviving(ss, failed).len() && surviving(ss, failed)[j] == ss[i],
    decreases ss.len(),
{
    if in_failed(failed, ss[i].target_url@) && !keeps_on_failure(ss[i].ttype) {
        assert forall|j: int| 0 <= j < surviving(ss, failed).len() implies (#[trigger] surviving(
            ss,
            failed,
        )[j]).target_url@ != ss[i].target_url@ by {
            lemma_surviving_sub(ss, failed, j);
            let k = choose|k: int| 0 <= k < ss.len() && ss[k] == surviving(ss, failed)[j];
            if surviving(ss, failed)[j].target_url@ == ss[i].target_url@ {
                assert(ss[k].target_url@ == ss[i].target_url@);
                assert(k == i);
            }
        }
    }
    if keeps_on_failure(ss[i].ttype) {
        lemma_surviving_keeps(ss, failed, i);
    }
}

/// A source that survives failure is still there after the tick.
proof fn lemma_surviving_keeps(ss: Seq<ProxyScraper>, failed: Seq<Seq<char>>, i: int)
    requires
        0 <= i < ss.len(),
        keeps_on_failure(ss[i].ttype),
    ensures
        exists|j: int|
            0 <= j < surviving(ss, failed).len() && surviving(ss, failed)[j] == ss[i],
    decreases ss.len(),
{
    if i == ss.len() - 1 {
        let sv = surviving(ss, failed);
        assert(sv[sv.len() - 1] == ss[i]);
    } else {
        lemma_surviving_keeps(ss.drop_last(), failed, i);
        let j = choose|j: int|
            0 <= j < surviving(ss.drop_last(), failed).len() && surviving(ss.drop_last(), failed)[j]
                == ss.drop_last()[i];
        assert(surviving(ss, failed)[j] == ss[i]);
    }
}

/// Every survivor is one of the sources, and no evicted one survives.
proof fn lemma_surviving_sub(ss: Seq<ProxyScraper>, failed: Seq<Seq<char>>, j: int)
    requires
        0 <= j < surviving(ss, failed).len(),
    ensures
        exists|k: int| 0 <= k < ss.len() && ss[k] == surviving(ss, failed)[j],
        !(in_failed(failed, surviving(ss, failed)[j].target_url@) && !keeps_on_failure(
            surviving(ss, failed)[j].ttype,
        )),
    decreases ss.len(),
{
    if ss.len() > 0 {
        let kept = !(in_failed(failed, ss.last().target_url@) && !keeps_on_failure(
            ss.last().ttype,
        ));
        if kept && j == surviving(ss, failed).len() - 1 {
            assert(ss[ss.len() - 1] == surviving(ss, failed)[j]);
        } else {
            lemma_surviving_sub(ss.drop_last(), failed, j);
            let k = choose|k: int|
                0 <= k < ss.drop_last().len() && ss.drop_last()[k] == surviving(
                    ss.drop_last(),
                    failed,
                )[j];
            assert(ss[k] == surviving(ss, failed)[j]);
        }
    }
}

/// True when `url` is one of the listed failures.
fn contains_url(failed: &Vec<String>, url: &str) -> (r: bool)
    ensures
        r == in_failed(failed@.map_values(|s: String| s@), url@),
{
    let ghost fview = failed@.map_values(|s: String| s@);
    let n = failed.len();
    let mut i: usize = 0;
    while i < n
        invariant
            n == failed@.len(),
            fview == failed@.map_values(|s: String| s@),
            0 <= i <= n,
            forall|j: int| 0 <= j < i ==> fview[j] != url@,
        decreases n - i,
    {
        proof {
            assert(fview[i as int] == failed@[i as int]@);
        }
        if str_eq(failed[i].as_str(), url) {
            return true;
        }
        i = i + 1;
    }
    false
}

/// An equal copy of a profile list.
pub fn clone_profiles(ps: &Vec<JobProfile>) -> (r: Vec<JobProfile>)
    ensures
        r@.len() == ps@.len(),
        forall|i: int|
            0 <= i < ps@.len() ==> (#[trigger] r@[i]).desc == ps@[i].desc && r@[i].counters@
                == ps@[i].counters@,
{
    let mut out: Vec<JobProfile> = Vec::new();
    let n = ps.len();
    let mut i: usize = 0;
    while i < n
        invariant
            n == ps@.len(),
            0 <= i <= n,
            out@.len() == i,
            forall|j: int|
                0 <= j < i ==> (#[trigger] out@[j]).desc == ps@[j].desc && out@[j].counters@
                    == ps@[j].counters@,
        decreases n - i,
    {
        out.push(ps[i].clone());
        i = i + 1;
    }
    out
}

} // verus!
