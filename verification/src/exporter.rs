//! The exporter: metric storage grouped by basename, the push/accumulate/set
//! operations of the ingest and scrape paths, the text exposition document,
//! and the alarm registry bound to live metrics.

use vstd::prelude::*;

use crate::alarms::{alarm_applies, AlarmOperator, ValueAlarm, ValueAlarmTrigger};
use crate::counters::{same_variant, spec_hasdata, spec_merge, spec_set, spec_value, CounterType};
use crate::errors::ProxyErr;
use crate::jobs::{JobDesc, JobProfile};
use crate::names::{basename, basename_of, name_is_valid, str_eq, valid_name};
use crate::snapshot::{find_name, lemma_find_name, names_unique, sample_line, CounterSnapshot};

verus! {

/// All label variants of one metric, sharing a basename and one
/// documentation header.
#[derive(Debug)]
#[verifier::ext_equal]
pub struct ExporterEntryGroup {
    pub basename: String,
    pub doc: String,
    pub entries: Vec<CounterSnapshot>,
}

/// A well-formed group: no duplicate names, and every entry's basename is
/// the group's.
pub open spec fn group_wf(g: ExporterEntryGroup) -> bool {
    names_unique(g.entries@) && forall|i: int|
        0 <= i < g.entries@.len() ==> basename_of(#[trigger] g.entries@[i].name@) == g.basename@
}

/// Index of the first group carrying `base`, or -1 when none does.
pub open spec fn find_group(gs: Seq<ExporterEntryGroup>, base: Seq<char>) -> int
    decreases gs.len(),
{
    if gs.len() == 0 {
        -1
    } else if gs[0].basename@ == base {
        0
    } else {
        let r = find_group(gs.drop_first(), base);
        if r < 0 {
            -1
        } else {
            r + 1
        }
    }
}

/// What `find_group` returns: a valid index of the sought basename,
/// preceded by groups that all carry other basenames.
pub proof fn lemma_find_group(gs: Seq<ExporterEntryGroup>, base: Seq<char>)
    ensures
        find_group(gs, base) >= 0 ==> 0 <= find_group(gs, base) < gs.len() && gs[find_group(
            gs,
            base,
        )].basename@ == base,
        find_group(gs, base) < 0 ==> forall|i: int| 0 <= i < gs.len() ==> gs[i].basename@ != base,
        forall|i: int|
            0 <= i < gs.len() && gs[i].basename@ == base ==> 0 <= find_group(gs, base) <= i,
    decreases gs.len(),
{
    if gs.len() > 0 {
        lemma_find_group(gs.drop_first(), base);
        if gs[0].basename@ != base {
            assert(forall|i: int| 1 <= i < gs.len() ==> gs[i] == gs.drop_first()[i - 1]);
        }
    }
}

/// Two group lists with the same basenames in the same places are found
/// alike.
pub proof fn lemma_find_group_same(a: Seq<ExporterEntryGroup>, b: Seq<ExporterEntryGroup>, base: Seq<
    char,
>)
    requires
        a.len() == b.len(),
        forall|i: int| 0 <= i < a.len() ==> a[i].basename@ == #[trigger] b[i].basename@,
    ensures
        find_group(a, base) == find_group(b, base),
    decreases a.len(),
{
    if a.len() > 0 {
        assert(a[0].basename@ == b[0].basename@);
        assert forall|i: int| 0 <= i < a.drop_first().len() implies a.drop_first()[i].basename@
            == #[trigger] b.drop_first()[i].basename@ by {
            assert(a.drop_first()[i] == a[i + 1]);
            assert(b.drop_first()[i] == b[i + 1]);
        }
        lemma_find_group_same(a.drop_first(), b.drop_first(), base);
    }
}

/// Two entry lists with the same names in the same places are found alike.
pub proof fn lemma_find_name_same(a: Seq<CounterSnapshot>, b: Seq<CounterSnapshot>, name: Seq<char>)
    requires
        a.len() == b.len(),
        forall|i: int| 0 <= i < a.len() ==> a[i].name@ == #[trigger] b[i].name@,
    ensures
        find_name(a, name) == find_name(b, name),
    decreases a.len(),
{
    if a.len() > 0 {
        assert(a[0].name@ == b[0].name@);
        lemma_find_name_same(a.drop_first(), b.drop_first(), name);
    }
}

/// Appending to a list moves a failed find to the new element alone.
pub proof fn lemma_find_group_push(gs: Seq<ExporterEntryGroup>, g: ExporterEntryGroup, base: Seq<
    char,
>)
    ensures
        find_group(gs, base) >= 0 ==> find_group(gs.push(g), base) == find_group(gs, base),
        find_group(gs, base) < 0 && g.basename@ == base ==> find_group(gs.push(g), base)
            == gs.len(),
        find_group(gs, base) < 0 && g.basename@ != base ==> find_group(gs.push(g), base) < 0,
    decreases gs.len(),
{
    if gs.len() == 0 {
        assert(gs.push(g)[0] == g);
        assert(gs.push(g).len() == 1);
        assert(gs.push(g).drop_first() =~= gs);
    } else {
        lemma_find_group_push(gs.drop_first(), g, base);
        assert(gs.push(g).drop_first() =~= gs.drop_first().push(g));
    }
}

/// Appending an entry moves a failed find to the new entry alone.
pub proof fn lemma_find_name_push(cs: Seq<CounterSnapshot>, c: CounterSnapshot, name: Seq<char>)
    ensures
        find_name(cs, name) >= 0 ==> find_name(cs.push(c), name) == find_name(cs, name),
        find_name(cs, name) < 0 && c.name@ == name ==> find_name(cs.push(c), name) == cs.len(),
        find_name(cs, name) < 0 && c.name@ != name ==> find_name(cs.push(c), name) < 0,
    decreases cs.len(),
{
    if cs.len() == 0 {
        assert(cs.push(c)[0] == c);
        assert(cs.push(c).len() == 1);
        assert(cs.push(c).drop_first() =~= cs);
    } else {
        lemma_find_name_push(cs.drop_first(), c, name);
        assert(cs.push(c).drop_first() =~= cs.drop_first().push(c));
    }
}

/// The metric stored under `name`, looked up through its basename group.
pub open spec fn lookup(gs: Seq<ExporterEntryGroup>, name: Seq<char>) -> Option<CounterSnapshot> {
    let g = find_group(gs, basename_of(name));
    if g >= 0 {
        let i = find_name(gs[g].entries@, name);
        if i >= 0 {
            Some(gs[g].entries@[i])
        } else {
            None
        }
    } else {
        None
    }
}

/// The text lines of a list of samples, in order.
pub open spec fn lines_of(cs: Seq<CounterSnapshot>) -> Seq<char>
    decreases cs.len(),
{
    if cs.len() == 0 {
        Seq::empty()
    } else {
        lines_of(cs.drop_last()) + sample_line(cs.last().name@, cs.last().ctype)
    }
}

/// The exposition text of one group: its HELP and TYPE headers, then one
/// line per label variant.
pub open spec fn group_text(g: ExporterEntryGroup) -> Seq<char> {
    "# HELP "@ + g.basename@ + " "@ + g.doc@ + "\n# TYPE "@ + g.basename@ + " counter\n"@
        + lines_of(g.entries@)
}

/// The exposition text of a list of groups.
pub open spec fn groups_text(gs: Seq<ExporterEntryGroup>) -> Seq<char>
    decreases gs.len(),
{
    if gs.len() == 0 {
        Seq::empty()
    } else {
        groups_text(gs.drop_last()) + group_text(gs.last())
    }
}

/// The counters a profile reports for one group: every entry, or only those
/// holding data when `full` is false.
pub open spec fn group_profile(cs: Seq<CounterSnapshot>, full: bool) -> Seq<CounterSnapshot> {
    cs.filter(|c: CounterSnapshot| full || spec_hasdata(c.ctype))
}

/// The counters a profile reports for a list of groups, flattened in order.
pub open spec fn groups_profile(gs: Seq<ExporterEntryGroup>, full: bool) -> Seq<CounterSnapshot>
    decreases gs.len(),
{
    if gs.len() == 0 {
        Seq::empty()
    } else {
        groups_profile(gs.drop_last(), full) + group_profile(gs.last().entries@, full)
    }
}

impl ExporterEntryGroup {
    /// A fresh group for one basename.
    pub fn new(basename: String, doc: String) -> (r: ExporterEntryGroup)
        ensures
            r.basename == basename,
            r.doc == doc,
            r.entries@ =~= Seq::<CounterSnapshot>::empty(),
            group_wf(r),
    {
        ExporterEntryGroup { basename, doc, entries: Vec::new() }
    }

    /// Index of the entry carrying `name`, or the length when none does.
    fn find(&self, name: &str) -> (r: usize)
        ensures
            find_name(self.entries@, name@) >= 0 ==> r == find_name(self.entries@, name@),
            find_name(self.entries@, name@) < 0 ==> r == self.entries@.len(),
    {
        JobProfile::find(&self.entries, name)
    }

    /// Insert a new label variant; an existing full name is left untouched,
    /// and a name with an unmatched `{` is rejected.
    pub fn push(&mut self, snapshot: CounterSnapshot) -> (r: Result<(), ProxyErr>)
        requires
            group_wf(*old(self)),
            basename_of(snapshot.name@) == old(self).basename@,
        ensures
            group_wf(*final(self)),
            final(self).basename == old(self).basename,
            final(self).doc == old(self).doc,
            find_name(old(self).entries@, snapshot.name@) >= 0 ==> r is Ok && final(self).entries@
                == old(self).entries@,
            find_name(old(self).entries@, snapshot.name@) < 0 && !valid_name(snapshot.name@)
                ==> r is Err && final(self).entries@ == old(self).entries@,
            find_name(old(self).entries@, snapshot.name@) < 0 && valid_name(snapshot.name@)
                ==> r is Ok && final(self).entries@ == old(self).entries@.push(snapshot),
    {
        proof {
            lemma_find_name(self.entries@, snapshot.name@);
        }
        let idx = self.find(snapshot.name.as_str());
        if idx < self.entries.len() {
            return Ok(());
        }
        if !name_is_valid(snapshot.name.as_str()) {
            return Err(ProxyErr::new("Bad metric name: unmatched brackets"));
        }
        proof {
            let es = self.entries@;
            let n = snapshot.name@;
            assert(forall|i: int| 0 <= i < es.len() ==> es[i].name@ != n);
            assert(forall|i: int|
                0 <= i < es.push(snapshot).len() - 1 ==> es.push(snapshot)[i] == es[i]);
        }
        self.entries.push(snapshot);
        Ok(())
    }

    /// Fold a new observation into an existing variant: merge semantics when
    /// `merge` is set, set semantics otherwise.  A missing name is a soft
    /// error.
    pub fn accumulate(&mut self, snapshot: &CounterSnapshot, merge: bool) -> (r: Result<
        (),
        ProxyErr,
    >)
        requires
            group_wf(*old(self)),
        ensures
            group_wf(*final(self)),
            final(self).basename == old(self).basename,
            final(self).doc == old(self).doc,
            ({
                let i = find_name(old(self).entries@, snapshot.name@);
                if i >= 0 {
                    if same_variant(old(self).entries@[i].ctype, snapshot.ctype) {
                        r is Ok && final(self).entries@ =~= old(self).entries@.update(
                            i,
                            CounterSnapshot {
                                name: old(self).entries@[i].name,
                                doc: old(self).entries@[i].doc,
                                ctype: if merge {
                                    spec_merge(old(self).entries@[i].ctype, snapshot.ctype)
                                } else {
                                    spec_set(old(self).entries@[i].ctype, snapshot.ctype)
                                },
                            },
                        )
                    } else {
                        r is Err && final(self).entries@ == old(self).entries@
                    }
                } else {
                    r is Err && final(self).entries@ == old(self).entries@
                }
            }),
    {
        proof {
            lemma_find_name(self.entries@, snapshot.name@);
        }
        let idx = self.find(snapshot.name.as_str());
        if idx < self.entries.len() {
            let tgt = &mut self.entries[idx];
            let res = if merge {
                tgt.merge(snapshot)
            } else {
                tgt.set(snapshot)
            };
            proof {
                assert(forall|i: int|
                    0 <= i < self.entries@.len() ==> self.entries@[i].name@ == #[trigger] old(
                        self,
                    ).entries@[i].name@);
            }
            res
        } else {
            Err(ProxyErr::new("Failed to accumulate: no such metric"))
        }
    }

    /// Overwrite an existing variant with a fresh observation, using the
    /// variant's set semantics.
    pub fn set(&mut self, value: CounterSnapshot) -> (r: Result<(), ProxyErr>)
        requires
            group_wf(*old(self)),
        ensures
            group_wf(*final(self)),
            final(self).basename == old(self).basename,
            final(self).doc == old(self).doc,
            ({
                let i = find_name(old(self).entries@, value.name@);
                if i >= 0 {
                    if same_variant(old(self).entries@[i].ctype, value.ctype) {
                        r is Ok && final(self).entries@ =~= old(self).entries@.update(
                            i,
                            CounterSnapshot {
                                name: old(self).entries@[i].name,
                                doc: old(self).entries@[i].doc,
                                ctype: spec_set(old(self).entries@[i].ctype, value.ctype),
                            },
                        )
                    } else {
                        r is Err && final(self).entries@ == old(self).entries@
                    }
                } else {
                    r is Err && final(self).entries@ == old(self).entries@
                }
            }),
    {
        let r = self.accumulate(&value, false);
        if r.is_err() {
            return Err(ProxyErr::new("Failed to set counter"));
        }
        Ok(())
    }

    /// The entry carrying `metric`, when this group holds one.
    pub fn get(&self, metric: &str) -> (r: Option<CounterSnapshot>)
        ensures
            find_name(self.entries@, metric@) >= 0 ==> r is Some && r->0 == self.entries@[find_name(
                self.entries@,
                metric@,
            )],
            find_name(self.entries@, metric@) < 0 ==> r is None,
    {
        proof {
            lemma_find_name(self.entries@, metric@);
        }
        let idx = self.find(metric);
        if idx < self.entries.len() {
            Some(self.entries[idx].clone())
        } else {
            None
        }
    }

    /// The exposition text of this group.
    pub fn serialize(&self) -> (r: String)
        ensures
            r@ == group_text(*self),
    {
        let mut out = String::new();
        out.append("# HELP ");
        out.append(self.basename.as_str());
        out.append(" ");
        out.append(self.doc.as_str());
        out.append("\n# TYPE ");
        out.append(self.basename.as_str());
        out.append(" counter\n");
        let n = self.entries.len();
        let ghost header = out@;
        let mut i: usize = 0;
        while i < n
            invariant
                n == self.entries@.len(),
                0 <= i <= n,
                out@ == header + lines_of(self.entries@.take(i as int)),
            decreases n - i,
        {
            let line = self.entries[i].serialize();
            out.append(line.as_str());
            proof {
                let t1 = self.entries@.take(i + 1 as int);
                assert(t1.drop_last() =~= self.entries@.take(i as int));
                assert(t1.last() == self.entries@[i as int]);
            }
            i = i + 1;
        }
        proof {
            assert(self.entries@.take(n as int) =~= self.entries@);
            assert(header + lines_of(self.entries@) =~= group_text(*self));
        }
        out
    }

    /// The entries this group reports in a profile: all of them, or only
    /// those holding data.
    pub fn snapshot(&self, full: bool) -> (r: Vec<CounterSnapshot>)
        ensures
            r@ == group_profile(self.entries@, full),
    {
        let mut ret: Vec<CounterSnapshot> = Vec::new();
        let n = self.entries.len();
        let mut i: usize = 0;
        proof {
            assert(self.entries@.take(0).filter(|c: CounterSnapshot| full || spec_hasdata(c.ctype))
                =~= Seq::<CounterSnapshot>::empty());
        }
        while i < n
            invariant
                n == self.entries@.len(),
                0 <= i <= n,
                ret@ =~= group_profile(self.entries@.take(i as int), full),
            decreases n - i,
        {
            let c = &self.entries[i];
            proof {
                let t1 = self.entries@.take(i + 1 as int);
                assert(t1.drop_last() =~= self.entries@.take(i as int));
                assert(t1.last() == self.entries@[i as int]);
                reveal(Seq::filter);
            }
            if full || c.hasdata() {
                ret.push(c.clone());
            }
            i = i + 1;
        }
        proof {
            assert(self.entries@.take(n as int) =~= self.entries@);
        }
        ret
    }
}

/// The central metric store: groups of label variants keyed by basename,
/// plus the alarms watching them.
#[derive(Debug)]
#[verifier::ext_equal]
pub struct Exporter {
    pub groups: Vec<ExporterEntryGroup>,
    pub alarms: Vec<ValueAlarm>,
}

/// A well-formed exporter: group basenames unique, every group well formed,
/// and alarm names unique.
pub open spec fn exporter_wf(e: Exporter) -> bool {
    &&& forall|i: int, j: int|
        0 <= i < j < e.groups@.len() ==> e.groups@[i].basename@ != e.groups@[j].basename@
    &&& forall|i: int| 0 <= i < e.groups@.len() ==> group_wf(#[trigger] e.groups@[i])
    &&& forall|i: int, j: int|
        0 <= i < j < e.alarms@.len() ==> e.alarms@[i].name@ != e.alarms@[j].name@
}

/// The alarm triggers produced by a check: one record per alarm whose
/// comparator holds on the current value of its metric; alarms on a missing
/// metric stay silent.
pub open spec fn triggered(gs: Seq<ExporterEntryGroup>, alarms: Seq<ValueAlarm>) -> Seq<
    ValueAlarmTrigger,
>
    decreases alarms.len(),
{
    if alarms.len() == 0 {
        Seq::empty()
    } else {
        let rest = triggered(gs, alarms.drop_last());
        let a = alarms.last();
        match lookup(gs, a.metric@) {
            Some(c) => if alarm_applies(a.op, spec_value(c.ctype)) {
                rest.push(
                    ValueAlarmTrigger {
                        name: a.name,
                        metric: a.metric,
                        operator: a.op,
                        current: spec_value(c.ctype) as i64,
                        active: true,
                    },
                )
            } else {
                rest
            },
            None => rest,
        }
    }
}

impl Exporter {
    /// A fresh, empty exporter.
    pub fn new() -> (r: Exporter)
        ensures
            r.groups@ =~= Seq::<ExporterEntryGroup>::empty(),
            r.alarms@ =~= Seq::<ValueAlarm>::empty(),
            exporter_wf(r),
    {
        Exporter { groups: Vec::new(), alarms: Vec::new() }
    }

    /// Index of the group carrying `base`, or the length when none does.
    fn find_grp(&self, base: &str) -> (r: usize)
        ensures
            find_group(self.groups@, base@) >= 0 ==> r == find_group(self.groups@, base@),
            find_group(self.groups@, base@) < 0 ==> r == self.groups@.len(),
    {
        let n = self.groups.len();
        let mut i: usize = 0;
        proof {
            lemma_find_group(self.groups@, base@);
        }
        while i < n
            invariant
                n == self.groups@.len(),
                0 <= i <= n,
                forall|j: int| 0 <= j < i ==> self.groups@[j].basename@ != base@,
                find_group(self.groups@, base@) >= 0 ==> i <= find_group(self.groups@, base@),
            decreases n - i,
        {
            if str_eq(self.groups[i].basename.as_str(), base) {
                proof {
                    lemma_find_group(self.groups@, base@);
                }
                return i;
            }
            i = i + 1;
            proof {
                lemma_find_group(self.groups@, base@);
            }
        }
        n
    }

    /// Register a metric: create its basename group on first sight, add the
    /// label variant when new, and leave an existing full name untouched.
    /// A name with an unmatched `{` is rejected.
    pub fn push(&mut self, value: &CounterSnapshot) -> (r: Result<(), ProxyErr>)
        requires
            exporter_wf(*old(self)),
        ensures
            exporter_wf(*final(self)),
            final(self).alarms == old(self).alarms,
            lookup(old(self).groups@, value.name@) is Some ==> r is Ok && final(self).groups@
                == old(self).groups@,
            lookup(old(self).groups@, value.name@) is None && !valid_name(value.name@) ==> r is Err
                && final(self).groups@ == old(self).groups@,
            lookup(old(self).groups@, value.name@) is None && valid_name(value.name@) ==> r is Ok
                && lookup(final(self).groups@, value.name@) == Some(*value),
            lookup(old(self).groups@, value.name@) is None && valid_name(value.name@)
                && find_group(old(self).groups@, basename_of(value.name@)) < 0 ==> ({
                // A fresh basename group takes the first snapshot's doc,
                // which heads its exposition text.
                let g = find_group(final(self).groups@, basename_of(value.name@));
                g >= 0 && final(self).groups@[g].doc@ == value.doc@
            }),
            r is Ok ==> forall|n: Seq<char>|
                n != value.name@ ==> #[trigger] lookup(final(self).groups@, n) == lookup(
                    old(self).groups@,
                    n,
                ),
            r is Err ==> final(self).groups@ == old(self).groups@,
    {
        let base = basename(value.name.as_str());
        proof {
            lemma_find_group(self.groups@, base@);
        }
        let gi = self.find_grp(base.as_str());
        if gi < self.groups.len() {
            let already = {
                let g = &self.groups[gi];
                proof {
                    lemma_find_name(g.entries@, value.name@);
                }
                JobProfile::find(&g.entries, value.name.as_str()) < g.entries.len()
            };
            if already {
                return Ok(());
            }
            if !name_is_valid(value.name.as_str()) {
                return Err(ProxyErr::new("Bad metric name: unmatched brackets"));
            }
            let ghost oldgroups = self.groups@;
            let tgt = &mut self.groups[gi];
            let res = tgt.push(value.clone());
            proof {
                let gseq = self.groups@;
                assert(res is Ok);
                assert(gseq.len() == oldgroups.len());
                assert(forall|i: int|
                    0 <= i < gseq.len() && i != gi as int ==> gseq[i] == oldgroups[i]);
                assert(gseq[gi as int].basename@ == oldgroups[gi as int].basename@);
                assert(forall|i: int|
                    0 <= i < gseq.len() ==> gseq[i].basename@ == #[trigger] oldgroups[i].basename@);
                lemma_find_group_same(gseq, oldgroups, basename_of(value.name@));
                let oldentries = oldgroups[gi as int].entries@;
                assert(gseq[gi as int].entries@ == oldentries.push(*value));
                lemma_find_name_push(oldentries, *value, value.name@);
                assert(lookup(gseq, value.name@) == Some(*value));
                assert forall|n: Seq<char>| n != value.name@ implies #[trigger] lookup(gseq, n)
                    == lookup(oldgroups, n) by {
                    lemma_find_group_same(gseq, oldgroups, basename_of(n));
                    let g = find_group(oldgroups, basename_of(n));
                    lemma_find_group(oldgroups, basename_of(n));
                    if g >= 0 {
                        if g == gi as int {
                            lemma_find_name_push(oldentries, *value, n);
                            lemma_find_name(oldentries, n);
                        } else {
                            assert(gseq[g] == oldgroups[g]);
                        }
                    }
                }
            }
            Ok(())
        } else {
            if !name_is_valid(value.name.as_str()) {
                return Err(ProxyErr::new("Bad metric name: unmatched brackets"));
            }
            let mut ncnt = ExporterEntryGroup::new(base, value.doc.clone());
            let res = ncnt.push(value.clone());
            proof {
                assert(res is Ok);
                assert(ncnt.entries@ =~= Seq::<CounterSnapshot>::empty().push(*value));
            }
            let ghost oldgroups = self.groups@;
            self.groups.push(ncnt);
            proof {
                let gseq = self.groups@;
                assert(gseq.last().entries@.len() == 1);
                assert(gseq.last().entries@[0] == *value);
                lemma_find_group_push(oldgroups, gseq.last(), basename_of(value.name@));
                lemma_find_group(oldgroups, basename_of(value.name@));
                assert(lookup(gseq, value.name@) == Some(*value));
                assert forall|n: Seq<char>| n != value.name@ implies #[trigger] lookup(gseq, n)
                    == lookup(oldgroups, n) by {
                    lemma_find_group_push(oldgroups, gseq.last(), basename_of(n));
                    lemma_find_group(oldgroups, basename_of(n));
                    if find_group(oldgroups, basename_of(n)) < 0 && basename_of(n) == basename_of(
                        value.name@,
                    ) {
                        assert(find_group(gseq, basename_of(n)) == oldgroups.len());
                        assert(gseq.last().entries@.drop_first() =~= Seq::<
                            CounterSnapshot,
                        >::empty());
                        assert(gseq.last().entries@[0].name@ == value.name@);
                        assert(find_name(Seq::<CounterSnapshot>::empty(), n) == -1);
                        assert(find_name(gseq.last().entries@.drop_first(), n) == -1);
                        assert(find_name(gseq.last().entries@, n) < 0);
                    }
                }
                assert(exporter_wf(*self));
            }
            Ok(())
        }
    }

    /// Fold an observation into the variant already registered under its
    /// full name; a missing name or a variant mismatch is a soft error.
    pub fn accumulate(&mut self, value: &CounterSnapshot, merge: bool) -> (r: Result<(), ProxyErr>)
        requires
            exporter_wf(*old(self)),
        ensures
            exporter_wf(*final(self)),
            final(self).alarms == old(self).alarms,
            ({
                match lookup(old(self).groups@, value.name@) {
                    Some(c) => {
                        if same_variant(c.ctype, value.ctype) {
                            r is Ok && lookup(final(self).groups@, value.name@) == Some(
                                CounterSnapshot {
                                    name: c.name,
                                    doc: c.doc,
                                    ctype: if merge {
                                        spec_merge(c.ctype, value.ctype)
                                    } else {
                                        spec_set(c.ctype, value.ctype)
                                    },
                                },
                            )
                        } else {
                            r is Err && final(self).groups@ == old(self).groups@
                        }
                    },
                    None => r is Err && final(self).groups@ == old(self).groups@,
                }
            }),
            r is Ok ==> forall|n: Seq<char>|
                n != value.name@ ==> #[trigger] lookup(final(self).groups@, n) == lookup(
                    old(self).groups@,
                    n,
                ),
    {
        let base = basename(value.name.as_str());
        proof {
            lemma_find_group(self.groups@, base@);
        }
        let gi = self.find_grp(base.as_str());
        if gi < self.groups.len() {
            let feasible = {
                let g = &self.groups[gi];
                proof {
                    lemma_find_name(g.entries@, value.name@);
                }
                let idx = JobProfile::find(&g.entries, value.name.as_str());
                if idx < g.entries.len() {
                    g.entries[idx].check_same_type(value).is_ok()
                } else {
                    false
                }
            };
            if !feasible {
                return Err(ProxyErr::new("Failed to accumulate: no such metric or wrong kind"));
            }
            let ghost oldgroups = self.groups@;
            let tgt = &mut self.groups[gi];
            let res = tgt.accumulate(value, merge);
            proof {
                assert(res is Ok);
                let gseq = self.groups@;
                assert(gseq.len() == oldgroups.len());
                assert(forall|i: int|
                    0 <= i < gseq.len() && i != gi as int ==> gseq[i] == oldgroups[i]);
                assert(gseq[gi as int].basename@ == oldgroups[gi as int].basename@);
                assert(forall|i: int|
                    0 <= i < gseq.len() ==> gseq[i].basename@ == #[trigger] oldgroups[i].basename@);
                lemma_find_group_same(gseq, oldgroups, basename_of(value.name@));
                let oldentries = oldgroups[gi as int].entries@;
                let newentries = gseq[gi as int].entries@;
                lemma_find_name(oldentries, value.name@);
                assert(newentries.len() == oldentries.len());
                assert(forall|i: int|
                    0 <= i < newentries.len() ==> newentries[i].name@ == #[trigger] oldentries[i].name@);
                lemma_find_name_same(newentries, oldentries, value.name@);
                if res is Ok {
                    assert forall|n: Seq<char>| n != value.name@ implies #[trigger] lookup(gseq, n)
                        == lookup(oldgroups, n) by {
                        lemma_find_group_same(gseq, oldgroups, basename_of(n));
                        let g = find_group(oldgroups, basename_of(n));
                        lemma_find_group(oldgroups, basename_of(n));
                        if g >= 0 {
                            if g == gi as int {
                                lemma_find_name_same(newentries, oldentries, n);
                                lemma_find_name(oldentries, n);
                                lemma_find_name(oldentries, value.name@);
                            } else {
                                assert(gseq[g] == oldgroups[g]);
                            }
                        }
                    }
                }
            }
            res
        } else {
            proof {
                lemma_find_group(self.groups@, basename_of(value.name@));
            }
            Err(ProxyErr::new("No such key, cannot accumulate it"))
        }
    }

    /// Overwrite the variant already registered under the observation's full
    /// name, with set semantics; a missing name is a soft error.
    pub fn set(&mut self, value: CounterSnapshot) -> (r: Result<(), ProxyErr>)
        requires
            exporter_wf(*old(self)),
        ensures
            exporter_wf(*final(self)),
            final(self).alarms == old(self).alarms,
            ({
                match lookup(old(self).groups@, value.name@) {
                    Some(c) => {
                        if same_variant(c.ctype, value.ctype) {
                            r is Ok && lookup(final(self).groups@, value.name@) == Some(
                                CounterSnapshot {
                                    name: c.name,
                                    doc: c.doc,
                                    ctype: spec_set(c.ctype, value.ctype),
                                },
                            )
                        } else {
                            r is Err && final(self).groups@ == old(self).groups@
                        }
                    },
                    None => r is Err && final(self).groups@ == old(self).groups@,
                }
            }),
            r is Ok ==> forall|n: Seq<char>|
                n != value.name@ ==> #[trigger] lookup(final(self).groups@, n) == lookup(
                    old(self).groups@,
                    n,
                ),
    {
        self.accumulate(&value, false)
    }

    /// The metric registered under `metric`, when there is one.
    pub fn get(&self, metric: &str) -> (r: Option<CounterSnapshot>)
        ensures
            r == lookup(self.groups@, metric@),
    {
        let base = basename(metric);
        proof {
            lemma_find_group(self.groups@, base@);
        }
        let gi = self.find_grp(base.as_str());
        if gi < self.groups.len() {
            self.groups[gi].get(metric)
        } else {
            None
        }
    }

    /// The whole exposition document: every group's text, closed by the EOF
    /// marker.
    pub fn serialize(&self) -> (r: String)
        ensures
            r@ == groups_text(self.groups@) + "# EOF\n"@,
    {
        let mut out = String::new();
        let n = self.groups.len();
        let mut i: usize = 0;
        while i < n
            invariant
                n == self.groups@.len(),
                0 <= i <= n,
                out@ == groups_text(self.groups@.take(i as int)),
            decreases n - i,
        {
            let text = self.groups[i].serialize();
            out.append(text.as_str());
            proof {
                let t1 = self.groups@.take(i + 1 as int);
                assert(t1.drop_last() =~= self.groups@.take(i as int));
                assert(t1.last() == self.groups@[i as int]);
            }
            i = i + 1;
        }
        out.append("# EOF\n");
        proof {
            assert(self.groups@.take(n as int) =~= self.groups@);
        }
        out
    }

    /// The profile this exporter reports for a job: every counter, or only
    /// those holding data when `full` is false.
    pub fn profile(&self, desc: &JobDesc, full: bool) -> (r: JobProfile)
        ensures
            r.desc == *desc,
            r.counters@ == groups_profile(self.groups@, full),
    {
        let mut counters: Vec<CounterSnapshot> = Vec::new();
        let n = self.groups.len();
        let mut i: usize = 0;
        while i < n
            invariant
                n == self.groups@.len(),
                0 <= i <= n,
                counters@ =~= groups_profile(self.groups@.take(i as int), full),
            decreases n - i,
        {
            let mut snaps = self.groups[i].snapshot(full);
            counters.append(&mut snaps);
            proof {
                let t1 = self.groups@.take(i + 1 as int);
                assert(t1.drop_last() =~= self.groups@.take(i as int));
                assert(t1.last() == self.groups@[i as int]);
            }
            i = i + 1;
        }
        proof {
            assert(self.groups@.take(n as int) =~= self.groups@);
        }
        JobProfile { desc: desc.clone(), counters }
    }

    /// Index of the alarm carrying `name`, or the length when none does.
    fn find_alarm(&self, name: &str) -> (r: usize)
        ensures
            r <= self.alarms@.len(),
            r < self.alarms@.len() ==> self.alarms@[r as int].name@ == name@,
            forall|j: int| 0 <= j < r ==> self.alarms@[j].name@ != name@,
            r == self.alarms@.len() ==> forall|j: int|
                0 <= j < self.alarms@.len() ==> self.alarms@[j].name@ != name@,
    {
        let n = self.alarms.len();
        let mut i: usize = 0;
        while i < n
            invariant
                n == self.alarms@.len(),
                0 <= i <= n,
                forall|j: int| 0 <= j < i ==> self.alarms@[j].name@ != name@,
            decreases n - i,
        {
            if str_eq(self.alarms[i].name.as_str(), name) {
                return i;
            }
            i = i + 1;
        }
        n
    }

    /// Bind an alarm to a live metric; the metric must exist and the alarm
    /// name must be fresh.
    pub fn add_alarm(&mut self, name: String, metric: String, op: String, value: i64) -> (r: Result<
        (),
        ProxyErr,
    >)
        requires
            exporter_wf(*old(self)),
        ensures
            exporter_wf(*final(self)),
            final(self).groups@ == old(self).groups@,
            r is Ok <==> lookup(old(self).groups@, metric@) is Some && (op@ == "="@ || op@ == "<"@
                || op@ == ">"@) && (forall|j: int|
                0 <= j < old(self).alarms@.len() ==> old(self).alarms@[j].name@ != name@),
            r is Ok ==> final(self).alarms@.len() == old(self).alarms@.len() + 1
                && final(self).alarms@.last().name@ == name@
                && final(self).alarms@.last().metric@ == metric@
                && final(self).alarms@.drop_last() == old(self).alarms@,
            r is Ok && op@ == "="@ ==> final(self).alarms@.last().op == AlarmOperator::Equal(value),
            r is Ok && op@ == "<"@ ==> final(self).alarms@.last().op == AlarmOperator::Less(value),
            r is Ok && op@ == ">"@ ==> final(self).alarms@.last().op == AlarmOperator::More(value),
            r is Err ==> final(self).alarms@ == old(self).alarms@,
    {
        if self.get(metric.as_str()).is_none() {
            return Err(ProxyErr::new("No such metric, cannot bind alarm"));
        }
        let alarm = ValueAlarm::new(&name, &metric, op.as_str(), value)?;
        let idx = self.find_alarm(name.as_str());
        if idx < self.alarms.len() {
            return Err(ProxyErr::new("Alarm is already defined"));
        }
        proof {
            assert(forall|j: int|
                0 <= j < self.alarms@.len() ==> self.alarms@[j].name@ != name@);
        }
        self.alarms.push(alarm);
        proof {
            assert(forall|i: int|
                0 <= i < self.alarms@.len() - 1 ==> self.alarms@[i] == old(self).alarms@[i]);
        }
        Ok(())
    }

    /// Remove the alarm carrying `name`; unknown names are an error.
    pub fn delete_alarm(&mut self, alarm_name: &String) -> (r: Result<(), ProxyErr>)
        requires
            exporter_wf(*old(self)),
        ensures
            exporter_wf(*final(self)),
            final(self).groups@ == old(self).groups@,
            r is Ok <==> exists|j: int|
                0 <= j < old(self).alarms@.len() && old(self).alarms@[j].name@ == alarm_name@,
            r is Ok ==> exists|j: int|
                0 <= j < old(self).alarms@.len() && old(self).alarms@[j].name@ == alarm_name@
                    && final(self).alarms@ =~= old(self).alarms@.remove(j),
            r is Err ==> final(self).alarms@ == old(self).alarms@,
    {
        let idx = self.find_alarm(alarm_name.as_str());
        if idx < self.alarms.len() {
            self.alarms.remove(idx);
            proof {
                let j = idx as int;
                assert(0 <= j < old(self).alarms@.len() && old(self).alarms@[j].name@
                    == alarm_name@ && self.alarms@ =~= old(self).alarms@.remove(j));
            }
            Ok(())
        } else {
            Err(ProxyErr::new("Failed to remove alarm: no such alarm"))
        }
    }

    /// Walk the alarm registry and report every alarm whose comparator holds
    /// on the current value of its metric.
    pub fn check_alarms(&self) -> (r: Vec<ValueAlarmTrigger>)
        ensures
            r@ == triggered(self.groups@, self.alarms@),
    {
        let mut ret: Vec<ValueAlarmTrigger> = Vec::new();
        let n = self.alarms.len();
        let mut i: usize = 0;
        while i < n
            invariant
                n == self.alarms@.len(),
                0 <= i <= n,
                ret@ =~= triggered(self.groups@, self.alarms@.take(i as int)),
            decreases n - i,
        {
            let a = &self.alarms[i];
            proof {
                let t1 = self.alarms@.take(i + 1 as int);
                assert(t1.drop_last() =~= self.alarms@.take(i as int));
                assert(t1.last() == self.alarms@[i as int]);
            }
            if let Some(c) = self.get(a.metric.as_str()) {
                if a.op.apply(&c.ctype) {
                    ret.push(
                        ValueAlarmTrigger {
                            name: a.name.clone(),
                            metric: a.metric.clone(),
                            operator: a.op,
                            current: c.ctype.value(),
                            active: true,
                        },
                    );
                }
            }
            i = i + 1;
        }
        proof {
            assert(self.alarms@.take(n as int) =~= self.alarms@);
        }
        ret
    }
}

/// What one registration attempt leaves in an exporter, succeed or fail: an
/// existing full name is untouched; a new, brace-valid one is stored with
/// the given doc and value; an invalid new one changes nothing; no other
/// name moves.
pub open spec fn push_outcome(
    a: Exporter,
    b: Exporter,
    name: Seq<char>,
    doc: Seq<char>,
    c: CounterType,
) -> bool {
    &&& b.alarms@ == a.alarms@
    &&& (lookup(a.groups@, name) is Some ==> b.groups@ == a.groups@)
    &&& (lookup(a.groups@, name) is None && valid_name(name) ==> match lookup(b.groups@, name) {
        Some(s) => s.name@ == name && s.doc@ == doc && s.ctype == c,
        None => false,
    })
    &&& (lookup(a.groups@, name) is None && !valid_name(name) ==> b.groups@ == a.groups@)
    &&& forall|n: Seq<char>| n != name ==> #[trigger] lookup(b.groups@, n) == lookup(a.groups@, n)
}

/// What one fold attempt leaves in an exporter, succeed or fail: a
/// registered name of the same variant takes the merge or set result; a
/// missing name or a variant mismatch changes nothing; no other name moves.
pub open spec fn fold_outcome(
    a: Exporter,
    b: Exporter,
    name: Seq<char>,
    c: CounterType,
    merge: bool,
) -> bool {
    &&& b.alarms@ == a.alarms@
    &&& (match lookup(a.groups@, name) {
        Some(cur) => {
            if same_variant(cur.ctype, c) {
                lookup(b.groups@, name) == Some(
                    CounterSnapshot {
                        name: cur.name,
                        doc: cur.doc,
                        ctype: if merge {
                            spec_merge(cur.ctype, c)
                        } else {
                            spec_set(cur.ctype, c)
                        },
                    },
                )
            } else {
                b.groups@ == a.groups@
            }
        },
        None => b.groups@ == a.groups@,
    })
    &&& forall|n: Seq<char>| n != name ==> #[trigger] lookup(b.groups@, n) == lookup(a.groups@, n)
}

/// What one remote observation leaves in an exporter: a brace-valid unseen
/// name is registered with the observed snapshot, a known name of the same
/// variant is folded in with merge or set semantics, anything else changes
/// nothing, and no other name moves.
pub open spec fn ingested(a: Exporter, b: Exporter, v: CounterSnapshot, merge: bool) -> bool {
    &&& b.alarms == a.alarms
    &&& (match lookup(a.groups@, v.name@) {
        None => {
            if valid_name(v.name@) {
                lookup(b.groups@, v.name@) == Some(v)
            } else {
                b.groups@ == a.groups@
            }
        },
        Some(c) => {
            if same_variant(c.ctype, v.ctype) {
                lookup(b.groups@, v.name@) == Some(
                    CounterSnapshot {
                        name: c.name,
                        doc: c.doc,
                        ctype: if merge {
                            spec_merge(c.ctype, v.ctype)
                        } else {
                            spec_set(c.ctype, v.ctype)
                        },
                    },
                )
            } else {
                b.groups@ == a.groups@
            }
        },
    })
    &&& forall|n: Seq<char>|
        n != v.name@ ==> #[trigger] lookup(b.groups@, n) == lookup(a.groups@, n)
}

/// A whole list of observations landed one after the other, each as
/// `ingested` says.
pub open spec fn folded_all(a: Exporter, b: Exporter, cs: Seq<CounterSnapshot>, merge: bool) -> bool
    decreases cs.len(),
{
    if cs.len() == 0 {
        b == a
    } else {
        exists|mid: Exporter|
            #[trigger] ingested(a, mid, cs[0], merge) && folded_all(mid, b, cs.skip(1), merge)
    }
}

/// A fold chain extends by one more observation landed at its end.
pub proof fn lemma_folded_all_push(
    a: Exporter,
    mid: Exporter,
    b: Exporter,
    cs: Seq<CounterSnapshot>,
    v: CounterSnapshot,
    merge: bool,
)
    requires
        folded_all(a, mid, cs, merge),
        ingested(mid, b, v, merge),
    ensures
        folded_all(a, b, cs.push(v), merge),
    decreases cs.len(),
{
    if cs.len() == 0 {
        assert(mid == a);
        assert(cs.push(v)[0] == v);
        assert(cs.push(v).skip(1) =~= Seq::<CounterSnapshot>::empty());
        assert(ingested(a, b, cs.push(v)[0], merge));
        assert(folded_all(b, b, cs.push(v).skip(1), merge));
    } else {
        let m0 = choose|m0: Exporter|
            #[trigger] ingested(a, m0, cs[0], merge) && folded_all(m0, mid, cs.skip(1), merge);
        lemma_folded_all_push(m0, mid, b, cs.skip(1), v, merge);
        assert(cs.push(v)[0] == cs[0]);
        assert(cs.push(v).skip(1) =~= cs.skip(1).push(v));
        assert(ingested(a, m0, cs.push(v)[0], merge));
    }
}

} // verus!