//! The batch queue listing: the table the scheduler's queue tool prints,
//! parsed into per-job key-value records.  Running the tool is the caller's
//! business; this module owns the parsing.

use vstd::prelude::*;

use crate::errors::ProxyErr;
use crate::names::{contains_char, prefix_before, str_eq, lemma_prefix_len};

verus! {

/// A string split on a separator: the pieces between occurrences, in order;
/// one piece per run, the separators consumed.
pub open spec fn split_on(s: Seq<char>, c: char) -> Seq<Seq<char>>
    decreases s.len(),
    via split_on_decreases
{
    if !contains_char(s, c) {
        seq![s]
    } else {
        let head = prefix_before(s, c);
        seq![head] + split_on(s.skip(head.len() as int + 1), c)
    }
}

#[via_fn]
proof fn split_on_decreases(s: Seq<char>, c: char) {
    lemma_prefix_len(s, c);
}

/// Split a string on a separator character.
pub fn str_split(s: &str, c: char) -> (r: Vec<String>)
    ensures
        r@.map_values(|p: String| p@) == split_on(s@, c),
{
    let ghost whole = s@;
    let n = s.unicode_len();
    let mut out: Vec<String> = Vec::new();
    let mut start: usize = 0;
    let mut cursor: usize = 0;
    proof {
        assert(whole.skip(0) =~= whole);
        assert(out@.map_values(|p: String| p@) =~= Seq::<Seq<char>>::empty());
    }
    while cursor < n
        invariant
            n == whole.len(),
            whole == s@,
            0 <= start <= cursor <= n,
            forall|j: int| start <= j < cursor ==> whole[j] != c,
            split_on(whole, c) =~= out@.map_values(|p: String| p@) + split_on(
                whole.skip(start as int),
                c,
            ),
        decreases n - cursor,
    {
        if s.get_char(cursor) == c {
            let piece = s.substring_char(start, cursor).to_owned();
            proof {
                let rest = whole.skip(start as int);
                crate::names::lemma_prefix_before_take(rest, c, cursor - start);
                assert(rest[cursor - start] == c);
                assert(contains_char(rest, c));
                assert(piece@ =~= rest.take(cursor - start));
                assert(prefix_before(rest, c) =~= piece@);
                assert(rest.skip(piece@.len() as int + 1) =~= whole.skip(cursor + 1 as int));
            }
            let ghost pre = out@;
            out.push(piece);
            proof {
                let f = |p: String| p@;
                assert(out@.map_values(f) =~= pre.map_values(f).push(
                    whole.skip(start as int).take(cursor - start),
                ));
                assert(split_on(whole, c) =~= out@.map_values(f) + split_on(
                    whole.skip(cursor + 1 as int),
                    c,
                ));
            }
            start = cursor + 1;
        }
        cursor = cursor + 1;
    }
    let tail = s.substring_char(start, n).to_owned();
    let ghost pre = out@;
    out.push(tail);
    proof {
        let rest = whole.skip(start as int);
        assert(forall|j: int| 0 <= j < rest.len() ==> rest[j] != c);
        assert(!contains_char(rest, c));
        assert(split_on(rest, c) =~= seq![rest]);
        assert(tail@ =~= rest);
        let f = |p: String| p@;
        assert(out@.map_values(f) =~= pre.map_values(f).push(rest));
        assert(pre.map_values(f).push(rest) =~= pre.map_values(f) + seq![rest]);
        assert(split_on(whole, c) =~= out@.map_values(f));
    }
    out
}

/// One parsed queue listing: for each job, its identifier and the header
/// fields zipped with the row's values.
pub struct SqueueJobList {
    pub jobs: Vec<(String, Vec<(String, String)>)>,
}

/// The value stored under `key` in one record, by first match.
pub open spec fn field_find(pairs: Seq<(String, String)>, key: Seq<char>) -> int
    decreases pairs.len(),
{
    if pairs.len() == 0 {
        -1
    } else if pairs[0].0@ == key {
        0
    } else {
        let r = field_find(pairs.drop_first(), key);
        if r < 0 {
            -1
        } else {
            r + 1
        }
    }
}

/// What `field_find` returns.
pub proof fn lemma_field_find(pairs: Seq<(String, String)>, key: Seq<char>)
    ensures
        field_find(pairs, key) >= 0 ==> 0 <= field_find(pairs, key) < pairs.len() && pairs[
            field_find(pairs, key)
        ].0@ == key,
        field_find(pairs, key) < 0 ==> forall|i: int| 0 <= i < pairs.len() ==> pairs[i].0@ != key,
        forall|i: int|
            0 <= i < pairs.len() && pairs[i].0@ == key ==> 0 <= field_find(pairs, key) <= i,
    decreases pairs.len(),
{
    if pairs.len() > 0 {
        lemma_field_find(pairs.drop_first(), key);
        if pairs[0].0@ != key {
            assert(forall|i: int| 1 <= i < pairs.len() ==> pairs[i] == pairs.drop_first()[i - 1]);
        }
    }
}

/// Index of the record for `id`, or -1 when none exists.
/// A data line the parser accepts: non-empty, with exactly one field per
/// header column.
pub open spec fn line_well_formed(line: Seq<char>, header: Seq<Seq<char>>) -> bool {
    line.len() > 0 && split_on(line, '|').len() == header.len()
}

/// How many lines of a list the parser accepts.
pub open spec fn wf_line_count(lines: Seq<Seq<char>>, header: Seq<Seq<char>>) -> int
    decreases lines.len(),
{
    if lines.len() == 0 {
        0
    } else {
        wf_line_count(lines.drop_last(), header) + if line_well_formed(lines.last(), header) {
            1int
        } else {
            0int
        }
    }
}

pub open spec fn record_find(jobs: Seq<(String, Vec<(String, String)>)>, id: Seq<char>) -> int
    decreases jobs.len(),
{
    if jobs.len() == 0 {
        -1
    } else if jobs[0].0@ == id {
        0
    } else {
        let r = record_find(jobs.drop_first(), id);
        if r < 0 {
            -1
        } else {
            r + 1
        }
    }
}

/// What `record_find` returns.
pub proof fn lemma_record_find(jobs: Seq<(String, Vec<(String, String)>)>, id: Seq<char>)
    ensures
        record_find(jobs, id) >= 0 ==> 0 <= record_find(jobs, id) < jobs.len() && jobs[record_find(
            jobs,
            id,
        )].0@ == id,
        record_find(jobs, id) < 0 ==> forall|i: int| 0 <= i < jobs.len() ==> jobs[i].0@ != id,
        forall|i: int|
            0 <= i < jobs.len() && jobs[i].0@ == id ==> 0 <= record_find(jobs, id) <= i,
    decreases jobs.len(),
{
    if jobs.len() > 0 {
        lemma_record_find(jobs.drop_first(), id);
        if jobs[0].0@ != id {
            assert(forall|i: int| 1 <= i < jobs.len() ==> jobs[i] == jobs.drop_first()[i - 1]);
        }
    }
}

impl SqueueJobList {
    /// Parse the queue tool's tabular output: the first line names the
    /// fields; every later line of the same width becomes one record, kept
    /// when it carries a job identifier.  Empty output is an error.
    pub fn init(output: &str) -> (r: Result<SqueueJobList, ProxyErr>)
        ensures
            r is Ok <==> output@.len() > 0,
            r is Ok ==> ({
                let header = split_on(split_on(output@, '\n')[0], '|');
                forall|i: int|
                    0 <= i < r->Ok_0.jobs@.len() ==> {
                        let pairs = (#[trigger] r->Ok_0.jobs@[i]).1@;
                        pairs.len() == header.len() && (forall|k: int|
                            0 <= k < pairs.len() ==> (#[trigger] pairs[k]).0@ == header[k])
                            && field_find(pairs, "JOBID"@) >= 0 && pairs[field_find(
                            pairs,
                            "JOBID"@,
                        )].1@ == r->Ok_0.jobs@[i].0@
                    }
            }),
            // Completeness: one record per accepted data line, none when
            // the header lacks a job column.
            r is Ok ==> ({
                let lines = split_on(output@, '\n');
                let header = split_on(lines[0], '|');
                if exists|k: int| 0 <= k < header.len() && header[k] == "JOBID"@ {
                    r->Ok_0.jobs@.len() == wf_line_count(lines.skip(1), header)
                } else {
                    r->Ok_0.jobs@.len() == 0
                }
            }),
    {
        if output.unicode_len() == 0 {
            return Err(ProxyErr::new("Failed to retrieve queue information"));
        }
        let lines = str_split(output, '\n');
        let ghost lview = split_on(output@, '\n');
        proof {
            if contains_char(output@, '\n') {
                assert(lview.len() >= 1);
            } else {
                assert(lview =~= seq![output@]);
            }
            assert(lines@.len() == lview.len());
            assert(lines@.map_values(|p: String| p@)[0] == lines@[0]@);
        }
        let header = str_split(lines[0].as_str(), '|');
        let ghost hview = split_on(lview[0], '|');
        let mut jobs: Vec<(String, Vec<(String, String)>)> = Vec::new();
        let nl = lines.len();
        let mut li: usize = 1;
        proof {
            assert(lview.subrange(1, 1) =~= Seq::<Seq<char>>::empty());
        }
        while li < nl
            invariant
                nl == lines@.len(),
                1 <= li <= nl || nl == 0,
                hview == split_on(lview[0], '|'),
                lview == split_on(output@, '\n'),
                lview[0] == lines@[0]@,
                lines@.map_values(|p: String| p@) == lview,
                header@.map_values(|p: String| p@) == hview,
                jobs@.len() == (if exists|k: int| 0 <= k < hview.len() && hview[k] == "JOBID"@ {
                    wf_line_count(lview.subrange(1, li as int), hview)
                } else {
                    0int
                }),
                forall|i: int|
                    0 <= i < jobs@.len() ==> {
                        let pairs = (#[trigger] jobs@[i]).1@;
                        pairs.len() == hview.len() && (forall|k: int|
                            0 <= k < pairs.len() ==> (#[trigger] pairs[k]).0@ == hview[k])
                            && field_find(pairs, "JOBID"@) >= 0 && pairs[field_find(
                            pairs,
                            "JOBID"@,
                        )].1@ == jobs@[i].0@
                    },
            decreases nl - li,
        {
            let ghost jobs_before: int = jobs@.len() as int;
            let entry = str_split(lines[li].as_str(), '|');
            proof {
                assert(lines@.map_values(|p: String| p@)[li as int] == lines@[li as int]@);
                assert(lines@[li as int]@ == lview[li as int]);
                assert(entry@.map_values(|p: String| p@) == split_on(lview[li as int], '|'));
                assert(entry@.map_values(|p: String| p@).len() == entry@.len());
            }
            if lines[li].unicode_len() > 0 && entry.len() == header.len() {
                let mut pairs: Vec<(String, String)> = Vec::new();
                let m = header.len();
                let mut k: usize = 0;
                while k < m
                    invariant
                        m == header@.len(),
                        m == entry@.len(),
                        0 <= k <= m,
                        pairs@.len() == k,
                        header@.map_values(|p: String| p@) == hview,
                        forall|j: int|
                            0 <= j < k ==> (#[trigger] pairs@[j]).0@ == hview[j],
                    decreases m - k,
                {
                    proof {
                        assert(header@.map_values(|p: String| p@)[k as int] == header@[k as int]@);
                    }
                    pairs.push((header[k].clone(), entry[k].clone()));
                    k = k + 1;
                }
                proof {
                    lemma_field_find(pairs@, "JOBID"@);
                }
                let ji = Self::find_field(&pairs, "JOBID");
                proof {
                    lemma_field_find(pairs@, "JOBID"@);
                    if field_find(pairs@, "JOBID"@) >= 0 {
                        let f = field_find(pairs@, "JOBID"@);
                        assert(hview[f] == "JOBID"@);
                        assert(exists|k: int| 0 <= k < hview.len() && hview[k] == "JOBID"@);
                    } else {
                        if exists|k: int| 0 <= k < hview.len() && hview[k] == "JOBID"@ {
                            let k = choose|k: int|
                                0 <= k < hview.len() && hview[k] == "JOBID"@;
                            assert(pairs@[k].0@ == "JOBID"@);
                            assert(false);
                        }
                    }
                }
                if ji < pairs.len() {
                    let jobid = pairs[ji].1.clone();
                    jobs.push((jobid, pairs));
                    proof {
                        assert(forall|i: int|
                            0 <= i < jobs@.len() - 1 ==> jobs@[i] == jobs@.drop_last()[i]);
                        lemma_field_find(jobs@.last().1@, "JOBID"@);
                    }
                }
            }
            proof {
                assert(lview.subrange(1, li + 1 as int).drop_last() =~= lview.subrange(
                    1,
                    li as int,
                ));
                assert(lview.subrange(1, li + 1 as int).last() == lview[li as int]);
                assert(jobs@.len() == (if exists|k: int|
                    0 <= k < hview.len() && hview[k] == "JOBID"@ {
                    wf_line_count(lview.subrange(1, li + 1 as int), hview)
                } else {
                    0int
                }));
            }
            li = li + 1;
        }
        proof {
            assert(lview.subrange(1, nl as int) =~= lview.skip(1));
        }
        Ok(SqueueJobList { jobs })
    }

    /// Index of the field carrying `key`, or the length when none does.
    pub fn find_field(pairs: &Vec<(String, String)>, key: &str) -> (r: usize)
        ensures
            field_find(pairs@, key@) >= 0 ==> r == field_find(pairs@, key@),
            field_find(pairs@, key@) < 0 ==> r == pairs@.len(),
    {
        let n = pairs.len();
        let mut i: usize = 0;
        proof {
            lemma_field_find(pairs@, key@);
        }
        while i < n
            invariant
                n == pairs@.len(),
                0 <= i <= n,
                forall|j: int| 0 <= j < i ==> pairs@[j].0@ != key@,
            decreases n - i,
        {
            if str_eq(pairs[i].0.as_str(), key) {
                proof {
                    lemma_field_find(pairs@, key@);
                }
                return i;
            }
            i = i + 1;
            proof {
                lemma_field_find(pairs@, key@);
            }
        }
        n
    }

    /// The command comment recorded for one job, when the queue listed it.
    pub fn job_cmd(&self, id: &str) -> (r: Option<String>)
        ensures
            ({
                let ji = record_find(self.jobs@, id@);
                if ji >= 0 {
                    let pairs = self.jobs@[ji].1@;
                    let ci = field_find(pairs, "COMMENT"@);
                    if ci >= 0 {
                        r is Some && r->0@ == pairs[ci].1@
                    } else {
                        r is None
                    }
                } else {
                    r is None
                }
            }),
    {
        proof {
            lemma_record_find(self.jobs@, id@);
            reveal_strlit("COMMENT");
        }
        let n = self.jobs.len();
        let mut i: usize = 0;
        while i < n
            invariant
                n == self.jobs@.len(),
                0 <= i <= n,
                forall|j: int| 0 <= j < i ==> self.jobs@[j].0@ != id@,
            decreases n - i,
        {
            if str_eq(self.jobs[i].0.as_str(), id) {
                proof {
                    lemma_record_find(self.jobs@, id@);
                    lemma_field_find(self.jobs@[i as int].1@, "COMMENT"@);
                }
                let pairs = &self.jobs[i].1;
                let ci = Self::find_field(pairs, "COMMENT");
                if ci < pairs.len() {
                    return Some(pairs[ci].1.clone());
                }
                return None;
            }
            i = i + 1;
            proof {
                lemma_record_find(self.jobs@, id@);
            }
        }
        None
    }
}

} // verus!
