//! The ingest decoder: framing of the null-terminated wire stream, the
//! command set a client sends, and the per-connection session that feeds
//! the registry.

use vstd::prelude::*;

use crate::errors::ProxyErr;
use crate::jobs::JobDesc;
use crate::registry::ExporterFactory;
use crate::snapshot::{CounterValue, ValueDesc};

verus! {

/// `b` occurs somewhere in `s`.
pub open spec fn contains_byte(s: Seq<u8>, b: u8) -> bool {
    exists|i: int| 0 <= i < s.len() && s[i] == b
}

/// The prefix of `s` up to (excluding) the first occurrence of `b`.
pub open spec fn bytes_before(s: Seq<u8>, b: u8) -> Seq<u8>
    decreases s.len(),
{
    if s.len() == 0 {
        s
    } else if s[0] == b {
        Seq::empty()
    } else {
        seq![s[0]] + bytes_before(s.drop_first(), b)
    }
}

/// The prefix never outruns the stream, and stops short of it when the
/// byte occurs.
pub proof fn lemma_bytes_before_len(s: Seq<u8>, b: u8)
    ensures
        bytes_before(s, b).len() <= s.len(),
        contains_byte(s, b) ==> bytes_before(s, b).len() < s.len(),
    decreases s.len(),
{
    if s.len() > 0 && s[0] != b {
        lemma_bytes_before_len(s.drop_first(), b);
        if contains_byte(s, b) {
            let i = choose|i: int| 0 <= i < s.len() && s[i] == b;
            assert(i >= 1);
            assert(s.drop_first()[i - 1] == b);
            assert(contains_byte(s.drop_first(), b));
        }
    }
}

/// The complete messages in a byte stream: every chunk closed by a zero
/// byte, in order.
pub open spec fn complete_messages(s: Seq<u8>) -> Seq<Seq<u8>>
    decreases s.len(),
    via complete_messages_decreases
{
    if !contains_byte(s, 0u8) {
        Seq::empty()
    } else {
        let head = bytes_before(s, 0u8);
        seq![head] + complete_messages(s.skip(head.len() as int + 1))
    }
}

#[via_fn]
proof fn complete_messages_decreases(s: Seq<u8>) {
    lemma_bytes_before_len(s, 0u8);
}

/// What stays in the buffer after the complete messages are taken: the
/// bytes after the last zero.
pub open spec fn leftover(s: Seq<u8>) -> Seq<u8>
    decreases s.len(),
    via leftover_decreases
{
    if !contains_byte(s, 0u8) {
        s
    } else {
        let head = bytes_before(s, 0u8);
        leftover(s.skip(head.len() as int + 1))
    }
}

#[via_fn]
proof fn leftover_decreases(s: Seq<u8>) {
    lemma_bytes_before_len(s, 0u8);
}

/// The prefix stops exactly at the first occurrence.
proof fn lemma_bytes_before_take(s: Seq<u8>, b: u8, i: int)
    requires
        0 <= i <= s.len(),
        forall|j: int| 0 <= j < i ==> s[j] != b,
        i == s.len() || s[i] == b,
    ensures
        bytes_before(s, b) =~= s.take(i),
    decreases s.len(),
{
    if s.len() == 0 {
    } else if s[0] == b {
        assert(i == 0);
    } else {
        assert(i >= 1);
        lemma_bytes_before_take(s.drop_first(), b, i - 1);
        assert(s.drop_first().take(i - 1) =~= s.take(i).drop_first());
    }
}

/// The rolling buffer of one ingest connection.
pub struct MessageBuffer {
    pub buffer: Vec<u8>,
}

impl MessageBuffer {
    /// An empty buffer.
    pub fn new() -> (r: MessageBuffer)
        ensures
            r.buffer@.len() == 0,
    {
        MessageBuffer { buffer: Vec::new() }
    }

    /// Take in freshly read bytes and hand back every message the stream
    /// has completed; the unterminated tail stays buffered.
    pub fn split_messages(&mut self, incoming: &Vec<u8>) -> (r: Vec<Vec<u8>>)
        ensures
            ({
                let whole = old(self).buffer@ + incoming@;
                r@.map_values(|m: Vec<u8>| m@) == complete_messages(whole) && final(self).buffer@
                    == leftover(whole)
            }),
    {
        let mut data = Vec::new();
        std::mem::swap(&mut data, &mut self.buffer);
        let n = incoming.len();
        let mut i: usize = 0;
        while i < n
            invariant
                n == incoming@.len(),
                0 <= i <= n,
                data@ == old(self).buffer@ + incoming@.take(i as int),
            decreases n - i,
        {
            data.push(incoming[i]);
            proof {
                assert(data@ =~= old(self).buffer@ + incoming@.take(i + 1 as int));
            }
            i = i + 1;
        }
        proof {
            assert(incoming@.take(n as int) =~= incoming@);
        }
        let ghost whole = data@;
        let mut out: Vec<Vec<u8>> = Vec::new();
        let mut start: usize = 0;
        let mut cursor: usize = 0;
        proof {
            assert(out@.map_values(|m: Vec<u8>| m@) =~= Seq::<Seq<u8>>::empty());
            assert(whole.skip(0) =~= whole);
        }
        while cursor < data.len()
            invariant
                data@ == whole,
                0 <= start <= cursor <= data@.len(),
                forall|j: int| start <= j < cursor ==> whole[j] != 0u8,
                complete_messages(whole) =~= out@.map_values(|m: Vec<u8>| m@)
                    + complete_messages(whole.skip(start as int)),
                leftover(whole) == leftover(whole.skip(start as int)),
            decreases data@.len() - cursor,
        {
            if data[cursor] == 0 {
                let mut msg: Vec<u8> = Vec::new();
                let mut k = start;
                while k < cursor
                    invariant
                        data@ == whole,
                        0 <= start <= k <= cursor <= data@.len(),
                        msg@ =~= whole.subrange(start as int, k as int),
                    decreases cursor - k,
                {
                    msg.push(data[k]);
                    proof {
                        assert(msg@ =~= whole.subrange(start as int, k + 1 as int));
                    }
                    k = k + 1;
                }
                proof {
                    let rest = whole.skip(start as int);
                    lemma_bytes_before_take(rest, 0u8, cursor - start);
                    assert(rest[cursor - start] == 0u8);
                    assert(contains_byte(rest, 0u8));
                    assert(bytes_before(rest, 0u8) =~= rest.take(cursor - start));
                    assert(msg@ =~= rest.take(cursor - start));
                    assert(rest.skip(cursor - start + 1) =~= whole.skip(cursor + 1 as int));
                }
                let ghost pre = out@;
                out.push(msg);
                proof {
                    let f = |m: Vec<u8>| m@;
                    assert(out@.map_values(f) =~= pre.map_values(f).push(
                        whole.skip(start as int).take(cursor - start),
                    ));
                    assert(complete_messages(whole) =~= out@.map_values(f) + complete_messages(
                        whole.skip(cursor + 1 as int),
                    ));
                }
                start = cursor + 1;
            }
            cursor = cursor + 1;
        }
        // Keep the unterminated tail.
        let mut tail: Vec<u8> = Vec::new();
        let mut k = start;
        while k < data.len()
            invariant
                data@ == whole,
                0 <= start <= k <= data@.len(),
                tail@ =~= whole.subrange(start as int, k as int),
            decreases data@.len() - k,
        {
            tail.push(data[k]);
            proof {
                assert(tail@ =~= whole.subrange(start as int, k + 1 as int));
            }
            k = k + 1;
        }
        proof {
            let rest = whole.skip(start as int);
            assert(forall|j: int| 0 <= j < rest.len() ==> rest[j] != 0u8);
            assert(!contains_byte(rest, 0u8));
            assert(complete_messages(rest) =~= Seq::<Seq<u8>>::empty());
            assert(tail@ =~= rest);
            assert(out@.map_values(|m: Vec<u8>| m@) + Seq::<Seq<u8>>::empty() =~= out@.map_values(
                |m: Vec<u8>| m@,
            ));
        }
        self.buffer = tail;
        out
    }
}

/// One decoded command of the ingest wire protocol.
#[derive(Debug, PartialEq)]
pub enum ProxyCommand {
    Desc(ValueDesc),
    Value(CounterValue),
    JobDesc(JobDesc),
}

/// The declared description's strings fit the machine limits of the trace
/// format, so a job can be acquired for it.
pub open spec fn job_fits(d: JobDesc) -> bool {
    d.jobid@.len() <= 4096 && d.command@.len() <= 4096 && d.nodelist@.len() <= 4096
        && d.partition@.len() <= 4096 && d.cluster@.len() <= 4096 && d.run_dir@.len() <= 4096
}

/// The per-connection state: the job the client declared, if any.
pub struct ClientSession {
    pub job_desc: Option<JobDesc>,
}

impl ClientSession {
    /// A fresh connection that has declared no job yet.
    pub fn new() -> (r: ClientSession)
        ensures
            r.job_desc is None,
    {
        ClientSession { job_desc: None }
    }

    /// The registry index of the job this session declared, if any.
    pub open spec fn declared_job(&self, jobs: Seq<crate::registry::PerJobRefcount>) -> int {
        match self.job_desc {
            Some(jd) => crate::registry::job_find(jobs, jd.jobid@),
            None => -1,
        }
    }

    /// Apply one decoded command: a declaration registers the metric in the
    /// fleet aggregate, the node aggregate and the declared job; a value is
    /// folded into the same three with set semantics; a description of a
    /// non-empty job acquires its per-job exporter as a local job and is
    /// remembered by the session.
    pub fn on_command(
        &mut self,
        factory: &mut ExporterFactory,
        command: ProxyCommand,
        now_us: u64,
    ) -> (r: Result<(), ProxyErr>)
        requires
            old(factory).wf(),
        ensures
            final(factory).wf(),
            final(factory).node_jobid == old(factory).node_jobid,
            final(factory).aggregator == old(factory).aggregator,
            command is Desc ==> ({
                let d = command->Desc_0;
                let mi = crate::registry::job_find(
                    old(factory).perjob@,
                    crate::registry::main_jobid(),
                );
                let ni = crate::registry::job_find(
                    old(factory).perjob@,
                    old(factory).node_jobid@,
                );
                let ji = old(self).declared_job(old(factory).perjob@);
                &&& *final(self) == *old(self)
                &&& (r is Err <==> crate::exporter::lookup(
                    old(factory).perjob@[mi].exporter.groups@,
                    d.name@,
                ) is None && !crate::names::valid_name(d.name@))
                &&& (r is Ok ==> crate::exporter::push_outcome(
                    old(factory).perjob@[mi].exporter,
                    final(factory).perjob@[mi].exporter,
                    d.name@,
                    d.doc@,
                    d.ctype,
                ) && crate::exporter::push_outcome(
                    old(factory).perjob@[ni].exporter,
                    final(factory).perjob@[ni].exporter,
                    d.name@,
                    d.doc@,
                    d.ctype,
                ) && (ji >= 0 ==> crate::exporter::push_outcome(
                    old(factory).perjob@[ji].exporter,
                    final(factory).perjob@[ji].exporter,
                    d.name@,
                    d.doc@,
                    d.ctype,
                )))
            }),
            command is Value ==> ({
                let v = command->Value_0;
                let mi = crate::registry::job_find(
                    old(factory).perjob@,
                    crate::registry::main_jobid(),
                );
                let ni = crate::registry::job_find(
                    old(factory).perjob@,
                    old(factory).node_jobid@,
                );
                let ji = old(self).declared_job(old(factory).perjob@);
                &&& *final(self) == *old(self)
                &&& (r is Err <==> !(match crate::exporter::lookup(
                    old(factory).perjob@[mi].exporter.groups@,
                    v.name@,
                ) {
                    Some(c) => crate::counters::same_variant(c.ctype, v.value),
                    None => false,
                }))
                &&& (r is Ok ==> (ji != mi ==> crate::exporter::fold_outcome(
                    old(factory).perjob@[mi].exporter,
                    final(factory).perjob@[mi].exporter,
                    v.name@,
                    v.value,
                    false,
                )) && (ji != ni ==> crate::exporter::fold_outcome(
                    old(factory).perjob@[ni].exporter,
                    final(factory).perjob@[ni].exporter,
                    v.name@,
                    v.value,
                    false,
                )) && (ji >= 0 && ji != mi && ji != ni ==> crate::exporter::fold_outcome(
                    old(factory).perjob@[ji].exporter,
                    final(factory).perjob@[ji].exporter,
                    v.name@,
                    v.value,
                    false,
                )))
            }),
            command is JobDesc ==> ({
                let d = command->JobDesc_0;
                &&& r is Ok
                &&& final(self).job_desc == Some(d)
                &&& (d.jobid@.len() > 0 && job_fits(d) ==> ({
                    let i = crate::registry::job_find(old(factory).perjob@, d.jobid@);
                    let jobs = final(factory).perjob@;
                    let oldjobs = old(factory).perjob@;
                    &&& crate::registry::job_find(jobs, d.jobid@) >= 0
                    &&& (i >= 0 ==> jobs.len() == oldjobs.len() && jobs[i].counter
                        == crate::util::sat_add_u64(oldjobs[i].counter as int, 1)
                        && jobs[i].islocal == (oldjobs[i].islocal || !old(factory).is_sentinel(
                        d.jobid@,
                    )))
                    &&& (i < 0 ==> jobs.len() == oldjobs.len() + 1 && jobs.last().counter == 1
                        && jobs.last().islocal && jobs.last().desc == d)
                }))
                &&& (!(d.jobid@.len() > 0 && job_fits(d)) ==> *final(factory) == *old(factory))
            }),
    {
        match command {
            ProxyCommand::Desc(desc) => {
                let jobid = match &self.job_desc {
                    Some(d) => Some(d.jobid.as_str()),
                    None => None,
                };
                factory.push(desc.name.as_str(), desc.doc.as_str(), desc.ctype, jobid)
            },
            ProxyCommand::Value(value) => {
                let jobid = match &self.job_desc {
                    Some(d) => Some(d.jobid.as_str()),
                    None => None,
                };
                factory.accumulate(value.name.as_str(), value.value, jobid)
            },
            ProxyCommand::JobDesc(d) => {
                if !d.jobid.as_str().is_empty() && d.jobid.unicode_len() <= 4096 && d.command.unicode_len()
                    <= 4096 && d.nodelist.unicode_len() <= 4096 && d.partition.unicode_len()
                    <= 4096 && d.cluster.unicode_len() <= 4096 && d.run_dir.unicode_len() <= 4096 {
                    let j = factory.resolve_job(&d, true, now_us);
                    proof {
                        crate::registry::lemma_job_find(factory.perjob@, d.jobid@);
                        assert(factory.perjob@[j as int].desc.jobid@ == d.jobid@);
                        assert(crate::registry::job_find(factory.perjob@, d.jobid@) >= 0);
                    }
                    self.job_desc = Some(d);
                } else {
                    self.job_desc = Some(d);
                }
                Ok(())
            },
        }
    }

    /// The connection closed: a client that declared a non-empty job
    /// releases it, stamped with the wall clock as its end; the profile of
    /// the final release is handed back for persisting.
    #[verifier::rlimit(40)]
    pub fn on_disconnect(&mut self, factory: &mut ExporterFactory, now_s: u64) -> (r: Result<
        Option<crate::jobs::JobProfile>,
        ProxyErr,
    >)
        requires
            old(factory).wf(),
        ensures
            final(factory).wf(),
            final(factory).node_jobid == old(factory).node_jobid,
            final(factory).aggregator == old(factory).aggregator,
            final(self).job_desc is None,
            old(self).job_desc is None || old(self).job_desc->0.jobid@.len() == 0 ==> r
                == Result::<Option<crate::jobs::JobProfile>, ProxyErr>::Ok(None) && *final(factory)
                == *old(factory),
            old(self).job_desc is Some && old(self).job_desc->0.jobid@.len() > 0
                ==> ExporterFactory::release_trace_effect(
                *old(factory),
                *final(factory),
                old(self).job_desc->0.jobid@,
            ),
            old(self).job_desc is Some && old(self).job_desc->0.jobid@.len() > 0 ==> ({
                let jid = old(self).job_desc->0.jobid@;
                let i = crate::registry::job_find(old(factory).perjob@, jid);
                let jobs = final(factory).perjob@;
                let oldjobs = old(factory).perjob@;
                if i < 0 || old(factory).is_sentinel(jid) {
                    r is Err && jobs == oldjobs
                } else if oldjobs[i].counter > 1 {
                    r == Result::<Option<crate::jobs::JobProfile>, ProxyErr>::Ok(None) && jobs.len()
                        == oldjobs.len() && jobs[i].counter == oldjobs[i].counter - 1
                } else {
                    jobs =~= oldjobs.remove(i) && r is Ok && (old(factory).aggregator
                        ==> r->Ok_0 is Some && r->Ok_0->0.counters@
                        == crate::exporter::groups_profile(oldjobs[i].exporter.groups@, false)
                        && r->Ok_0->0.desc == (JobDesc {
                        end_time: now_s,
                        ..old(self).job_desc->0
                    })) && (
                    !old(factory).aggregator ==> r->Ok_0 is None)
                }
            }),
    {
        let desc = match &self.job_desc {
            Some(d) => Some(d.clone()),
            None => None,
        };
        self.job_desc = None;
        match desc {
            Some(mut d) => {
                if d.jobid.as_str().is_empty() {
                    return Ok(None);
                }
                d.end_time = now_s;
                let r = factory.relax_job(&d);
                proof {
                    assert(d.jobid@ == old(self).job_desc->0.jobid@);
                }
                r
            },
            None => Ok(None),
        }
    }
}

} // verus!
