//! The in-memory profile store: the persisted profile of every terminated
//! job, grouped for surrogate modelling under the hash of its command line.

use vstd::prelude::*;

use crate::errors::ProxyErr;
use crate::jobs::{JobDesc, JobProfile};
use crate::names::str_eq;

verus! {

/// The hex digest the md5 crate computes for a command line; it depends on
/// the characters alone.
pub uninterp spec fn md5_hex_of(s: Seq<char>) -> Seq<char>;

/// Relies on the md5 crate's `compute` and its `Digest` lower-hex
/// rendering: two hex characters for each of the sixteen digest bytes,
/// determined by the input alone.
#[verifier::external_body]
pub fn md5_hex(command: &str) -> (r: String)
    ensures
        r@ == md5_hex_of(command@),
        r@.len() == 32,
{
    let digest = md5::compute(command);
    format!("{:x}", digest)
}

/// The file name a command's surrogate-model samples are stored under.
pub fn extrap_filename(command: &str) -> (r: String)
    ensures
        r@ == md5_hex_of(command@) + ".jsonl"@,
{
    let mut name = md5_hex(command);
    name.append(".jsonl");
    name
}

/// The file name a job's profile is stored under.
pub fn profile_filename(jobid: &str) -> (r: String)
    ensures
        r@ == jobid@ + ".profile"@,
{
    let mut name = jobid.to_owned();
    name.append(".profile");
    name
}

/// The file name a job's trace is stored under.
pub fn trace_filename(jobid: &str) -> (r: String)
    ensures
        r@ == jobid@ + ".trace"@,
{
    let mut name = jobid.to_owned();
    name.append(".trace");
    name
}

/// Index of the stored profile for `jobid`, or -1 when none exists.
pub open spec fn profile_find(ps: Seq<JobProfile>, jobid: Seq<char>) -> int
    decreases ps.len(),
{
    if ps.len() == 0 {
        -1
    } else if ps[0].desc.jobid@ == jobid {
        0
    } else {
        let r = profile_find(ps.drop_first(), jobid);
        if r < 0 {
            -1
        } else {
            r + 1
        }
    }
}

/// What `profile_find` returns.
pub proof fn lemma_profile_find(ps: Seq<JobProfile>, jobid: Seq<char>)
    ensures
        profile_find(ps, jobid) >= 0 ==> 0 <= profile_find(ps, jobid) < ps.len() && ps[profile_find(
            ps,
            jobid,
        )].desc.jobid@ == jobid,
        profile_find(ps, jobid) < 0 ==> forall|i: int|
            0 <= i < ps.len() ==> ps[i].desc.jobid@ != jobid,
        forall|i: int|
            0 <= i < ps.len() && ps[i].desc.jobid@ == jobid ==> 0 <= profile_find(ps, jobid) <= i,
    decreases ps.len(),
{
    if ps.len() > 0 {
        lemma_profile_find(ps.drop_first(), jobid);
        if ps[0].desc.jobid@ != jobid {
            assert(forall|i: int| 1 <= i < ps.len() ==> ps[i] == ps.drop_first()[i - 1]);
        }
    }
}

/// The in-memory mirror of the profile directory.
pub struct ProfileStore {
    pub profiles: Vec<JobProfile>,
}

impl ProfileStore {
    /// Stored jobs are registered once.
    pub open spec fn wf(&self) -> bool {
        forall|i: int, j: int|
            0 <= i < j < self.profiles@.len() ==> self.profiles@[i].desc.jobid@
                != self.profiles@[j].desc.jobid@
    }

    /// An empty store.
    pub fn new() -> (r: ProfileStore)
        ensures
            r.wf(),
            r.profiles@.len() == 0,
    {
        ProfileStore { profiles: Vec::new() }
    }

    /// Index of the stored profile for `jobid`, or the length.
    pub fn find(&self, jobid: &str) -> (r: usize)
        ensures
            profile_find(self.profiles@, jobid@) >= 0 ==> r == profile_find(
                self.profiles@,
                jobid@,
            ),
            profile_find(self.profiles@, jobid@) < 0 ==> r == self.profiles@.len(),
    {
        let n = self.profiles.len();
        let mut i: usize = 0;
        proof {
            lemma_profile_find(self.profiles@, jobid@);
        }
        while i < n
            invariant
                n == self.profiles@.len(),
                0 <= i <= n,
                forall|j: int| 0 <= j < i ==> self.profiles@[j].desc.jobid@ != jobid@,
            decreases n - i,
        {
            if str_eq(self.profiles[i].desc.jobid.as_str(), jobid) {
                proof {
                    lemma_profile_find(self.profiles@, jobid@);
                }
                return i;
            }
            i = i + 1;
            proof {
                lemma_profile_find(self.profiles@, jobid@);
            }
        }
        n
    }

    /// Remember a saved profile, replacing any earlier one of the same job.
    pub fn save_profile(&mut self, snap: JobProfile)
        requires
            old(self).wf(),
        ensures
            final(self).wf(),
            ({
                let i = profile_find(old(self).profiles@, snap.desc.jobid@);
                if i >= 0 {
                    final(self).profiles@.len() == old(self).profiles@.len()
                        && final(self).profiles@[i] == snap && forall|j: int|
                        0 <= j < old(self).profiles@.len() && j != i ==> final(self).profiles@[j]
                            == old(self).profiles@[j]
                } else {
                    final(self).profiles@ == old(self).profiles@.push(snap)
                }
            }),
    {
        proof {
            lemma_profile_find(self.profiles@, snap.desc.jobid@);
        }
        let i = self.find(snap.desc.jobid.as_str());
        if i < self.profiles.len() {
            self.profiles.set(i, snap);
            proof {
                assert(forall|j: int|
                    0 <= j < self.profiles@.len() && j != i as int ==> self.profiles@[j]
                        == old(self).profiles@[j]);
            }
        } else {
            self.profiles.push(snap);
            proof {
                lemma_profile_find(old(self).profiles@, self.profiles@.last().desc.jobid@);
                assert(forall|j: int|
                    0 <= j < self.profiles@.len() - 1 ==> self.profiles@[j]
                        == old(self).profiles@[j]);
            }
        }
    }

    /// The stored profile of one job.
    pub fn get_profile(&self, jobid: &str) -> (r: Result<&JobProfile, ProxyErr>)
        ensures
            profile_find(self.profiles@, jobid@) >= 0 ==> r is Ok && r->Ok_0
                == &self.profiles@[profile_find(self.profiles@, jobid@)],
            profile_find(self.profiles@, jobid@) < 0 ==> r is Err,
    {
        proof {
            lemma_profile_find(self.profiles@, jobid@);
        }
        let i = self.find(jobid);
        if i < self.profiles.len() {
            Ok(&self.profiles[i])
        } else {
            Err(ProxyErr::new("No profile for this job"))
        }
    }

    /// Every stored job's description.
    pub fn get_profile_list(&self) -> (r: Vec<JobDesc>)
        ensures
            r@.len() == self.profiles@.len(),
            forall|i: int| 0 <= i < r@.len() ==> #[trigger] r@[i] == self.profiles@[i].desc,
    {
        let mut ret: Vec<JobDesc> = Vec::new();
        let n = self.profiles.len();
        let mut i: usize = 0;
        while i < n
            invariant
                n == self.profiles@.len(),
                0 <= i <= n,
                ret@.len() == i,
                forall|j: int| 0 <= j < i ==> #[trigger] ret@[j] == self.profiles@[j].desc,
            decreases n - i,
        {
            ret.push(self.profiles[i].desc.clone());
            i = i + 1;
        }
        ret
    }

    /// The descriptions of the stored jobs that ran `cmd`, in order.
    pub fn filter_by_command(&self, cmd: &str) -> (r: Vec<JobDesc>)
        ensures
            r@.map_values(|d: JobDesc| d@) == descs_with_command(self.profiles@, cmd@),
    {
        let mut ret: Vec<JobDesc> = Vec::new();
        let n = self.profiles.len();
        let mut i: usize = 0;
        proof {
            assert(ret@.map_values(|d: JobDesc| d@) =~= descs_with_command(
                self.profiles@.take(0),
                cmd@,
            ));
        }
        while i < n
            invariant
                n == self.profiles@.len(),
                0 <= i <= n,
                ret@.map_values(|d: JobDesc| d@) =~= descs_with_command(
                    self.profiles@.take(i as int),
                    cmd@,
                ),
            decreases n - i,
        {
            proof {
                let t1 = self.profiles@.take(i + 1 as int);
                assert(t1.drop_last() =~= self.profiles@.take(i as int));
                assert(t1.last() == self.profiles@[i as int]);
            }
            if str_eq(self.profiles[i].desc.command.as_str(), cmd) {
                let ghost pre = ret@;
                let d = self.profiles[i].desc.clone();
                ret.push(d);
                proof {
                    let f = |d: JobDesc| d@;
                    assert(ret@.map_values(f) =~= pre.map_values(f).push(
                        self.profiles@[i as int].desc@,
                    ));
                }
            }
            proof {
                assert(ret@.map_values(|d: JobDesc| d@) =~= descs_with_command(
                    self.profiles@.take(i + 1 as int),
                    cmd@,
                ));
            }
            i = i + 1;
        }
        proof {
            assert(self.profiles@.take(n as int) =~= self.profiles@);
        }
        ret
    }
}

/// The shapes of the stored descriptions whose command is `cmd`, in order.
pub open spec fn descs_with_command(ps: Seq<JobProfile>, cmd: Seq<char>) -> Seq<
    crate::jobs::DescView,
>
    decreases ps.len(),
{
    if ps.len() == 0 {
        Seq::empty()
    } else {
        descs_with_command(ps.drop_last(), cmd) + (if ps.last().desc.command@ == cmd {
            seq![ps.last().desc@]
        } else {
            Seq::empty()
        })
    }
}

} // verus!
