//! The trace engine: an append-only, length-prefixed binary log of counter
//! frames per job, with name interning into dense ids and self-folding when
//! the log outgrows its size budget.

use vstd::prelude::*;

use crate::counters::CounterType;
use crate::errors::ProxyErr;
use crate::jobs::JobDesc;
use crate::snapshot::{names_unique, snaps_view, CounterSnapshot, SnapView};
use crate::trace_codec::{
    enc_ctype, enc_frame, enc_tc, enc_tcs, field_bound, frame_bytes, frame_wf, frames_view,
    frames_wf, log_bytes, read_log, lemma_dec_log, frame_to_bytes, FrameView, MetaView,
    TraceCounter, TraceCounterMetadata, TraceFrame,
};
use crate::util::{add_sat_u64, sat_add_u64, ts_mean, mean_u64};

verus! {

/// The views of the interning table.
pub open spec fn table_view(t: Seq<TraceCounterMetadata>) -> Seq<MetaView> {
    t.map_values(|m: TraceCounterMetadata| m@)
}

/// The interning records carried by a frame list, in order.
pub open spec fn metas_of(fs: Seq<FrameView>) -> Seq<MetaView>
    decreases fs.len(),
{
    if fs.len() == 0 {
        Seq::empty()
    } else {
        metas_of(fs.drop_last()) + (match fs.last() {
            FrameView::CounterMetadata { ts: _, metadata } => seq![metadata],
            _ => Seq::empty(),
        })
    }
}

/// Ids are the positions of their records: dense and never reused.
pub open spec fn ids_dense(table: Seq<MetaView>) -> bool {
    forall|i: int| 0 <= i < table.len() ==> #[trigger] table[i].id == i
}

/// No two interning records share a name.
pub open spec fn meta_names_unique(table: Seq<MetaView>) -> bool {
    forall|i: int, j: int| 0 <= i < j < table.len() ==> table[i].name != table[j].name
}

/// Index of the record interning `name`, or -1 when none does.
pub open spec fn meta_find(table: Seq<MetaView>, name: Seq<char>) -> int
    decreases table.len(),
{
    if table.len() == 0 {
        -1
    } else if table[0].name == name {
        0
    } else {
        let r = meta_find(table.drop_first(), name);
        if r < 0 {
            -1
        } else {
            r + 1
        }
    }
}

/// What `meta_find` returns: a valid index of the sought name, preceded by
/// records that all carry other names.
pub proof fn lemma_meta_find(table: Seq<MetaView>, name: Seq<char>)
    ensures
        meta_find(table, name) >= 0 ==> 0 <= meta_find(table, name) < table.len() && table[
            meta_find(table, name)
        ].name == name,
        meta_find(table, name) < 0 ==> forall|i: int|
            0 <= i < table.len() ==> table[i].name != name,
        forall|i: int|
            0 <= i < table.len() && table[i].name == name ==> 0 <= meta_find(table, name) <= i,
    decreases table.len(),
{
    if table.len() > 0 {
        lemma_meta_find(table.drop_first(), name);
        if table[0].name != name {
            assert(forall|i: int| 1 <= i < table.len() ==> table[i] == table.drop_first()[i - 1]);
        }
    }
}

/// Finding is stable under appending new records.
pub proof fn lemma_meta_find_push(table: Seq<MetaView>, m: MetaView, name: Seq<char>)
    ensures
        meta_find(table, name) >= 0 ==> meta_find(table.push(m), name) == meta_find(table, name),
        meta_find(table, name) < 0 && m.name == name ==> meta_find(table.push(m), name)
            == table.len(),
        meta_find(table, name) < 0 && m.name != name ==> meta_find(table.push(m), name) < 0,
    decreases table.len(),
{
    if table.len() == 0 {
        assert(table.push(m)[0] == m);
        assert(table.push(m).len() == 1);
        assert(table.push(m).drop_first() =~= table);
    } else {
        lemma_meta_find_push(table.drop_first(), m, name);
        assert(table.push(m).drop_first() =~= table.drop_first().push(m));
    }
}

/// One name interned: an unknown name gets the next dense id.
pub open spec fn intern_one(table: Seq<MetaView>, c: SnapView) -> Seq<MetaView> {
    if meta_find(table, c.name) >= 0 {
        table
    } else {
        table.push(MetaView { id: table.len() as u64, name: c.name, doc: c.doc })
    }
}

/// A batch of snapshots interned, left to right.
pub open spec fn intern_list(table: Seq<MetaView>, cs: Seq<SnapView>) -> Seq<MetaView>
    decreases cs.len(),
{
    if cs.len() == 0 {
        table
    } else {
        intern_one(intern_list(table, cs.drop_last()), cs.last())
    }
}

/// Interning only appends.
pub proof fn lemma_intern_list_prefix(table: Seq<MetaView>, cs: Seq<SnapView>)
    ensures
        intern_list(table, cs).len() >= table.len(),
        intern_list(table, cs).take(table.len() as int) =~= table,
    decreases cs.len(),
{
    if cs.len() > 0 {
        lemma_intern_list_prefix(table, cs.drop_last());
    }
}

/// After interning, every name of the batch is found.
pub proof fn lemma_intern_list_finds(table: Seq<MetaView>, cs: Seq<SnapView>, i: int)
    requires
        0 <= i < cs.len(),
    ensures
        meta_find(intern_list(table, cs), cs[i].name) >= 0,
    decreases cs.len(),
{
    let prev = intern_list(table, cs.drop_last());
    if i == cs.len() - 1 {
        lemma_meta_find(prev, cs.last().name);
        if meta_find(prev, cs.last().name) < 0 {
            lemma_meta_find_push(
                prev,
                MetaView { id: prev.len() as u64, name: cs.last().name, doc: cs.last().doc },
                cs.last().name,
            );
        }
    } else {
        assert(cs.drop_last()[i] == cs[i]);
        lemma_intern_list_finds(table, cs.drop_last(), i);
        lemma_meta_find(prev, cs[i].name);
        if meta_find(prev, cs.last().name) < 0 {
            lemma_meta_find_push(
                prev,
                MetaView { id: prev.len() as u64, name: cs.last().name, doc: cs.last().doc },
                cs[i].name,
            );
        }
    }
}

/// Interning keeps ids dense and names unique, and respects the id bound.
pub proof fn lemma_intern_list_wf(table: Seq<MetaView>, cs: Seq<SnapView>)
    requires
        ids_dense(table),
        meta_names_unique(table),
        table.len() + cs.len() <= u64::MAX,
    ensures
        ids_dense(intern_list(table, cs)),
        meta_names_unique(intern_list(table, cs)),
        intern_list(table, cs).len() <= table.len() + cs.len(),
    decreases cs.len(),
{
    if cs.len() > 0 {
        lemma_intern_list_wf(table, cs.drop_last());
        let prev = intern_list(table, cs.drop_last());
        lemma_meta_find(prev, cs.last().name);
        if meta_find(prev, cs.last().name) < 0 {
            let m = MetaView { id: prev.len() as u64, name: cs.last().name, doc: cs.last().doc };
            assert(forall|i: int| 0 <= i < prev.len() ==> prev.push(m)[i] == prev[i]);
            assert(prev.push(m)[prev.len() as int] == m);
            assert(prev.len() <= u64::MAX);
            assert(m.id == prev.len());
            assert(ids_dense(prev.push(m)));
            assert(forall|i: int| 0 <= i < prev.len() ==> prev[i].name != m.name);
            assert(meta_names_unique(prev.push(m)));
        }
    }
}

/// The samples of one appended frame: each snapshot under its interned id.
pub open spec fn samples_of(table: Seq<MetaView>, cs: Seq<SnapView>) -> Seq<TraceCounter> {
    cs.map_values(
        |c: SnapView| TraceCounter { id: meta_find(table, c.name) as u64, value: c.ctype },
    )
}

/// The timestamp of an appended counters frame: the first counter's own
/// timestamp when it carries one, else the clock reading.
pub open spec fn push_ts(cs: Seq<SnapView>, now_us: u64) -> u64 {
    if cs.len() > 0 && cs[0].ctype is Counter {
        cs[0].ctype->Counter_ts
    } else {
        now_us
    }
}

/// The interning frames appended for the new records, stamped `now_us`.
pub open spec fn meta_frames(new_metas: Seq<MetaView>, now_us: u64) -> Seq<FrameView> {
    new_metas.map_values(|m: MetaView| FrameView::CounterMetadata { ts: now_us, metadata: m })
}

/// Everything one push appends to the frame list.
pub open spec fn pushed_frames(
    table: Seq<MetaView>,
    cs: Seq<SnapView>,
    now_us: u64,
) -> Seq<FrameView> {
    let table2 = intern_list(table, cs);
    meta_frames(table2.skip(table.len() as int), now_us) + seq![
        FrameView::Counters { ts: push_ts(cs, now_us), counters: samples_of(table2, cs) },
    ]
}

/// The in-memory and on-disk state of one job's trace.
pub struct TraceState {
    pub file: Vec<u8>,
    pub frames: Vec<TraceFrame>,
    pub counters: Vec<TraceCounterMetadata>,
    pub max_size: usize,
    pub lastwrite: u64,
}

/// Sample ids within one frame are pairwise distinct.
pub open spec fn sample_ids_unique(cs: Seq<TraceCounter>) -> bool {
    forall|i: int, j: int| 0 <= i < j < cs.len() ==> cs[i].id != cs[j].id
}

/// A frame references only interned ids, each at most once.
pub open spec fn frame_valid(f: FrameView, n: int) -> bool {
    match f {
        FrameView::Counters { ts: _, counters } => sample_ids_unique(counters) && forall|i: int|
            0 <= i < counters.len() ==> #[trigger] counters[i].id < n,
        _ => true,
    }
}

impl TraceState {
    /// The trace invariant: the file bytes are exactly the encoded frames,
    /// the first frame describes the job, the interning table mirrors the
    /// interning frames with dense ids and unique names, and every counters
    /// frame references interned ids only.
    pub open spec fn wf(&self) -> bool {
        &&& self.file@ == log_bytes(frames_view(self.frames@))
        &&& frames_wf(frames_view(self.frames@))
        &&& self.frames@.len() >= 1
        &&& self.frames@[0]@ is Desc
        &&& table_view(self.counters@) == metas_of(frames_view(self.frames@))
        &&& ids_dense(table_view(self.counters@))
        &&& meta_names_unique(table_view(self.counters@))
        &&& self.counters@.len() <= field_bound()
        &&& forall|i: int|
            0 <= i < self.frames@.len() ==> frame_valid(
                #[trigger] self.frames@[i]@,
                table_view(self.counters@).len() as int,
            )
    }

    /// The frames currently recorded, as their mathematical shapes.
    pub open spec fn frames_model(&self) -> Seq<FrameView> {
        frames_view(self.frames@)
    }

    /// Open a fresh trace for one job: the description is its first frame.
    pub fn new(job: &JobDesc, now_us: u64, max_size: usize) -> (r: TraceState)
        requires
            job.jobid@.len() <= field_bound(),
            job.command@.len() <= field_bound(),
            job.nodelist@.len() <= field_bound(),
            job.partition@.len() <= field_bound(),
            job.cluster@.len() <= field_bound(),
            job.run_dir@.len() <= field_bound(),
        ensures
            r.wf(),
            r.frames_model() =~= seq![FrameView::Desc { ts: now_us, desc: job@ }],
            r.counters@.len() == 0,
            r.max_size == max_size,
    {
        let frame = TraceFrame::Desc { ts: now_us, desc: job.clone() };
        let file = frame_to_bytes(&frame);
        let mut frames: Vec<TraceFrame> = Vec::new();
        frames.push(frame);
        let r = TraceState { file, frames, counters: Vec::new(), max_size, lastwrite: now_us };
        proof {
            let fv = frames_view(r.frames@);
            assert(fv =~= seq![FrameView::Desc { ts: now_us, desc: job@ }]);
            assert(fv.drop_first() =~= Seq::<FrameView>::empty());
            assert(log_bytes(fv.drop_first()) =~= Seq::<u8>::empty());
            assert(r.file@ =~= log_bytes(fv));
            assert(metas_of(fv.drop_last()) =~= Seq::<MetaView>::empty());
            assert(metas_of(fv) =~= Seq::<MetaView>::empty());
            assert(table_view(r.counters@) =~= Seq::<MetaView>::empty());
        }
        r
    }

    /// The interned id of a metric name, when it has one.
    pub fn counter_id(&self, name: &str) -> (r: Option<u64>)
        requires
            self.wf(),
        ensures
            meta_find(table_view(self.counters@), name@) >= 0 ==> r == Some(
                meta_find(table_view(self.counters@), name@) as u64,
            ),
            meta_find(table_view(self.counters@), name@) < 0 ==> r is None,
    {
        let n = self.counters.len();
        let mut i: usize = 0;
        proof {
            lemma_meta_find(table_view(self.counters@), name@);
        }
        while i < n
            invariant
                self.wf(),
                n == self.counters@.len(),
                0 <= i <= n,
                forall|j: int| 0 <= j < i ==> table_view(self.counters@)[j].name != name@,
            decreases n - i,
        {
            proof {
                assert(table_view(self.counters@)[i as int] == self.counters@[i as int]@);
            }
            if crate::names::str_eq(self.counters[i].name.as_str(), name) {
                proof {
                    lemma_meta_find(table_view(self.counters@), name@);
                    assert(table_view(self.counters@)[i as int].name == name@);
                    assert(table_view(self.counters@)[i as int].id == i);
                }
                return Some(self.counters[i].id);
            }
            i = i + 1;
        }
        proof {
            lemma_meta_find(table_view(self.counters@), name@);
        }
        None
    }

    /// Append one batch of counters: unseen names are interned first, each
    /// in its own metadata frame, then one counters frame records the batch.
    /// Folds and reports the doubled sampling period when the file outgrows
    /// its budget.
    pub fn push(&mut self, counters: &Vec<CounterSnapshot>, now_us: u64, period_us: u64) -> (r:
        Option<u64>)
        requires
            old(self).wf(),
            names_unique(counters@),
            counters@.len() + old(self).counters@.len() <= field_bound(),
            forall|i: int|
                0 <= i < counters@.len() ==> (#[trigger] counters@[i]).name@.len() <= field_bound()
                    && counters@[i].doc@.len() <= field_bound(),
        ensures
            final(self).wf(),
            final(self).max_size == old(self).max_size,
            table_view(final(self).counters@) == intern_list(
                table_view(old(self).counters@),
                snaps_view(counters@),
            ),
            ({
                let appended = old(self).frames_model() + pushed_frames(
                    table_view(old(self).counters@),
                    snaps_view(counters@),
                    now_us,
                );
                if log_bytes(appended).len() > old(self).max_size {
                    final(self).frames_model() == fold_frames(appended) && r == Some(
                        sat_add_u64(period_us as int, period_us as int) as u64,
                    )
                } else {
                    final(self).frames_model() == appended && r is None
                }
            }),
    {
        let ghost table0 = table_view(self.counters@);
        let ghost cs = snaps_view(counters@);
        let ghost frames0 = self.frames_model();
        let n = counters.len();

        // Intern the unseen names, appending one metadata frame each.
        let mut i: usize = 0;
        while i < n
            invariant
                self.wf(),
                n == counters@.len(),
                0 <= i <= n,
                cs == snaps_view(counters@),
                table0 == table_view(old(self).counters@),
                frames0 == old(self).frames_model(),
                names_unique(counters@),
                counters@.len() + old(self).counters@.len() <= field_bound(),
                forall|j: int|
                    0 <= j < counters@.len() ==> (#[trigger] counters@[j]).name@.len()
                        <= field_bound() && counters@[j].doc@.len() <= field_bound(),
                table_view(self.counters@) == intern_list(table0, cs.take(i as int)),
                self.frames_model() == frames0 + meta_frames(
                    table_view(self.counters@).skip(table0.len() as int),
                    now_us,
                ),
                self.max_size == old(self).max_size,
            decreases n - i,
        {
            proof {
                let t1 = cs.take(i + 1 as int);
                assert(t1.drop_last() =~= cs.take(i as int));
                assert(t1.last() == cs[i as int]);
                lemma_meta_find(table_view(self.counters@), counters@[i as int].name@);
                lemma_intern_list_prefix(table0, cs.take(i as int));
                lemma_intern_list_wf(table0, cs.take(i as int));
            }
            let idx = self.counter_id(counters[i].name.as_str());
            if idx.is_none() {
                let id = self.counters.len() as u64;
                let meta = TraceCounterMetadata {
                    id,
                    name: counters[i].name.clone(),
                    doc: counters[i].doc.clone(),
                };
                let frame = TraceFrame::CounterMetadata { ts: now_us, metadata: meta.clone() };
                let ghost oldstate = *self;
                let bytes = frame_to_bytes(&frame);
                let mut bytes = bytes;
                self.file.append(&mut bytes);
                self.frames.push(frame);
                self.counters.push(meta);
                proof {
                    lemma_log_bytes_push(frames_view(oldstate.frames@), frame@);
                    assert(frames_view(self.frames@) =~= frames_view(oldstate.frames@).push(
                        frame@,
                    ));
                    assert(self.file@ =~= log_bytes(frames_view(self.frames@)));
                    assert(table_view(self.counters@) =~= table_view(oldstate.counters@).push(
                        meta@,
                    ));
                    lemma_metas_of_push(frames_view(oldstate.frames@), frame@);
                    assert(table_view(self.counters@) =~= intern_list(table0, cs.take(i + 1)));
                    assert(self.frames_model() =~= frames0 + meta_frames(
                        table_view(self.counters@).skip(table0.len() as int),
                        now_us,
                    ));
                    assert(forall|k: int|
                        0 <= k < self.frames@.len() - 1 ==> self.frames@[k]
                            == oldstate.frames@[k]);
                    assert(table_view(self.counters@).len() == table_view(
                        oldstate.counters@,
                    ).len() + 1);
                    assert forall|k: int| 0 <= k < self.frames@.len() implies frame_valid(
                        #[trigger] self.frames@[k]@,
                        table_view(self.counters@).len() as int,
                    ) by {
                        if k < self.frames@.len() - 1 {
                            assert(self.frames@[k]@ == oldstate.frames@[k]@);
                            assert(frame_valid(
                                oldstate.frames@[k]@,
                                table_view(oldstate.counters@).len() as int,
                            ));
                        } else {
                            assert(self.frames@[k]@ == frame@);
                        }
                    }
                    assert(frame_wf(frame@));
                    assert forall|k: int|
                        0 <= k < frames_view(self.frames@).len() implies frame_wf(
                        #[trigger] frames_view(self.frames@)[k],
                    ) by {
                        if k < self.frames@.len() - 1 {
                            assert(frames_view(self.frames@)[k] == frames_view(
                                oldstate.frames@,
                            )[k]);
                        } else {
                            assert(frames_view(self.frames@)[k] == frame@);
                        }
                    }
                    lemma_meta_find(table_view(oldstate.counters@), meta@.name);
                    assert(forall|j: int|
                        0 <= j < table_view(oldstate.counters@).len() ==> table_view(
                            oldstate.counters@,
                        )[j].name != meta@.name);
                    assert(meta_names_unique(table_view(self.counters@)));
                    assert(ids_dense(table_view(self.counters@)));
                    lemma_intern_list_wf(table0, cs.take(i + 1 as int));
                    assert(self.counters@.len() <= field_bound());
                    assert(metas_of(frames_view(self.frames@)) =~= metas_of(
                        frames_view(oldstate.frames@),
                    ) + seq![meta@]);
                    assert(table_view(oldstate.counters@) =~= metas_of(
                        frames_view(oldstate.frames@),
                    ));
                    assert(table_view(self.counters@) =~= metas_of(frames_view(self.frames@)));
                    assert(self.wf());
                }
            } else {
                proof {
                    assert(table_view(self.counters@) =~= intern_list(table0, cs.take(i + 1)));
                }
            }
            i = i + 1;
        }
        proof {
            assert(cs.take(n as int) =~= cs);
        }

        // Record the batch under the interned ids.
        let ghost table2 = table_view(self.counters@);
        let mut samples: Vec<TraceCounter> = Vec::new();
        let mut k: usize = 0;
        while k < n
            invariant
                self.wf(),
                n == counters@.len(),
                0 <= k <= n,
                cs == snaps_view(counters@),
                table2 == table_view(self.counters@),
                table2 == intern_list(table0, cs),
                samples@ =~= samples_of(table2, cs.take(k as int)),
            decreases n - k,
        {
            proof {
                lemma_intern_list_finds(table0, cs, k as int);
                lemma_meta_find(table2, cs[k as int].name);
            }
            let idx = self.counter_id(counters[k].name.as_str());
            let id = match idx {
                Some(id) => id,
                None => {
                    proof {
                        assert(false);
                    }
                    0
                },
            };
            samples.push(TraceCounter { id, value: counters[k].ctype });
            proof {
                assert(samples@ =~= samples_of(table2, cs.take(k + 1 as int)));
            }
            k = k + 1;
        }
        proof {
            assert(cs.take(n as int) =~= cs);
        }

        let ts = if counters.len() > 0 {
            counters[0].ctype.ts(now_us)
        } else {
            now_us
        };
        let frame = TraceFrame::Counters { ts, counters: samples };
        let ghost oldstate = *self;
        let bytes = frame_to_bytes(&frame);
        let mut bytes = bytes;
        self.file.append(&mut bytes);
        self.frames.push(frame);
        self.lastwrite = now_us;
        proof {
            let fnew = frames_view(self.frames@);
            lemma_log_bytes_push(frames_view(oldstate.frames@), fnew.last());
            assert(fnew =~= frames_view(oldstate.frames@).push(fnew.last()));
            assert(self.file@ =~= log_bytes(fnew));
            lemma_metas_of_push(frames_view(oldstate.frames@), fnew.last());
            assert(metas_of(fnew) =~= table_view(self.counters@));
            assert forall|i2: int|
                0 <= i2 < cs.len() implies (#[trigger] samples_of(table2, cs)[i2]).id
                < table2.len() by {
                lemma_intern_list_finds(table0, cs, i2);
                lemma_meta_find(table2, cs[i2].name);
            }
            assert forall|i2: int, j2: int|
                0 <= i2 < j2 < cs.len() implies samples_of(table2, cs)[i2].id != samples_of(
                table2,
                cs,
            )[j2].id by {
                lemma_intern_list_finds(table0, cs, i2);
                lemma_intern_list_finds(table0, cs, j2);
                lemma_meta_find(table2, cs[i2].name);
                lemma_meta_find(table2, cs[j2].name);
                assert(cs[i2].name != cs[j2].name);
            }
            assert(frame_valid(fnew.last(), table2.len() as int));
            assert forall|k2: int| 0 <= k2 < self.frames@.len() implies frame_valid(
                #[trigger] self.frames@[k2]@,
                table_view(self.counters@).len() as int,
            ) by {
                if k2 < self.frames@.len() - 1 {
                    assert(self.frames@[k2] == oldstate.frames@[k2]);
                }
            }
            assert(self.wf());
            assert(self.frames_model() =~= old(self).frames_model() + pushed_frames(
                table0,
                cs,
                now_us,
            ));
        }

        if self.file.len() > self.max_size {
            self.fold();
            Some(add_sat_u64(period_us, period_us))
        } else {
            None
        }
    }

    /// Halve the trace's resolution: keep the description and every
    /// interning frame, combine adjacent counters frames pairwise, drop an
    /// unpaired trailing frame, and rewrite the file.
    pub fn fold(&mut self)
        requires
            old(self).wf(),
        ensures
            final(self).wf(),
            final(self).counters@ == old(self).counters@,
            final(self).max_size == old(self).max_size,
            final(self).frames_model() == fold_frames(old(self).frames_model()),
            // Folding reduces the log: the rewritten file never grows.
            final(self).file@.len() <= old(self).file@.len(),
    {
        let ghost model = self.frames_model();
        let ghost tablen = table_view(self.counters@).len() as int;
        let desc = self.frames[0].clone();
        let mut metas: Vec<TraceFrame> = Vec::new();
        let mut cfs: Vec<TraceFrame> = Vec::new();
        let n = self.frames.len();
        let mut i: usize = 0;
        proof {
            assert(frames_view(metas@) =~= metaframes_of(model.take(0)));
            assert(frames_view(cfs@) =~= counters_of(model.take(0)));
        }
        while i < n
            invariant
                self.wf(),
                *self == *old(self),
                model == frames_view(self.frames@),
                tablen == table_view(self.counters@).len() as int,
                n == self.frames@.len(),
                0 <= i <= n,
                frames_view(metas@) =~= metaframes_of(model.take(i as int)),
                frames_view(cfs@) =~= counters_of(model.take(i as int)),
            decreases n - i,
        {
            proof {
                let t1 = model.take(i + 1 as int);
                assert(t1.drop_last() =~= model.take(i as int));
                assert(t1.last() == model[i as int]);
            }
            let keep = match &self.frames[i] {
                TraceFrame::Desc { .. } => 0u8,
                TraceFrame::CounterMetadata { .. } => 1u8,
                TraceFrame::Counters { .. } => 2u8,
            };
            if keep == 1 {
                metas.push(self.frames[i].clone());
                proof {
                    assert(frames_view(metas@) =~= frames_view(metas@.drop_last()).push(
                        model[i as int],
                    ));
                }
            } else if keep == 2 {
                cfs.push(self.frames[i].clone());
                proof {
                    assert(frames_view(cfs@) =~= frames_view(cfs@.drop_last()).push(
                        model[i as int],
                    ));
                }
            }
            proof {
                assert(frames_view(metas@) =~= metaframes_of(model.take(i + 1 as int)));
                assert(frames_view(cfs@) =~= counters_of(model.take(i + 1 as int)));
            }
            i = i + 1;
        }
        proof {
            assert(model.take(n as int) =~= model);
        }

        // Combine adjacent counters frames; an unpaired trailing frame is
        // dropped.
        let ghost cview = frames_view(cfs@);
        let mut merged: Vec<TraceFrame> = Vec::new();
        let m = cfs.len();
        let mut k: usize = 0;
        proof {
            assert(fold_pairs(cview.take(0)) =~= Seq::<FrameView>::empty());
            assert(table_view(self.counters@).len() == self.counters@.len());
            assert forall|j: int| 0 <= j < cfs@.len() implies cfs@[j]@ == cview[j] && is_counters(
                #[trigger] cview[j],
            ) && frame_valid(cview[j], tablen) by {
                assert(cview[j] == cfs@[j]@);
                lemma_counters_of_sub(model, j);
                let j2 = choose|j2: int| 0 <= j2 < model.len() && model[j2] == counters_of(model)[j];
                assert(model[j2] == self.frames@[j2]@);
                assert(frame_valid(self.frames@[j2]@, tablen));
            }
        }
        while k + 1 < m
            invariant
                m == cfs@.len(),
                cview == frames_view(cfs@),
                model == frames_view(old(self).frames@),
                tablen == table_view(old(self).counters@).len() as int,
                0 <= tablen <= field_bound(),
                0 <= k <= m,
                k % 2 == 0,
                frames_view(merged@) =~= fold_pairs(cview.take(k as int)),
                forall|j: int|
                    0 <= j < cfs@.len() ==> cfs@[j]@ == cview[j] && is_counters(#[trigger] cview[j])
                        && frame_valid(cview[j], tablen),
                forall|j: int|
                    0 <= j < merged@.len() ==> frame_wf(#[trigger] frames_view(merged@)[j])
                        && frame_valid(frames_view(merged@)[j], tablen),
            decreases m - k,
        {
            let f = frame_sum_exec(&cfs[k], &cfs[k + 1]);
            proof {
                let xa = cview[k as int]->Counters_counters;
                let xb = cview[k + 1 as int]->Counters_counters;
                lemma_merge_samples_wf(xa, xb, tablen);
            }
            merged.push(f);
            proof {
                lemma_fold_pairs_snoc(cview, k as int);
                assert(frames_view(merged@) =~= fold_pairs(cview.take(k + 2 as int)));
            }
            k = k + 2;
        }
        proof {
            if m % 2 == 0 {
                assert(k == m);
                assert(cview.take(m as int) =~= cview);
            } else {
                assert(k == m - 1);
                lemma_fold_pairs_odd(cview);
                assert(cview.take(m as int) =~= cview);
            }
            assert(frames_view(merged@) =~= fold_pairs(cview));
        }

        // Rebuild the frame list and the file.
        let mut newframes: Vec<TraceFrame> = Vec::new();
        newframes.push(desc);
        let ghost descview = seq![model[0]];
        proof {
            assert(frames_view(newframes@) =~= descview);
        }
        let mut metas = metas;
        let ghost metasview = frames_view(metas@);
        newframes.append(&mut metas);
        proof {
            assert(frames_view(newframes@) =~= descview + metasview);
        }
        let mut merged = merged;
        let ghost mergedview = frames_view(merged@);
        newframes.append(&mut merged);
        proof {
            assert(frames_view(newframes@) =~= descview + metasview + mergedview);
            assert(frames_view(newframes@) =~= fold_frames(model));
        }

        // Every rebuilt frame is well formed and references interned ids.
        proof {
            assert forall|j: int| 0 <= j < newframes@.len() implies frame_wf(
                #[trigger] frames_view(newframes@)[j],
            ) && frame_valid(frames_view(newframes@)[j], tablen) by {
                let fv = frames_view(newframes@)[j];
                if j == 0 {
                    assert(fv == model[0]);
                } else if j < 1 + metasview.len() {
                    assert(fv == metasview[j - 1]);
                    lemma_metaframes_of_sub(model, j - 1);
                    let j2 = choose|j2: int|
                        0 <= j2 < model.len() && model[j2] == metaframes_of(model)[j - 1];
                } else {
                    assert(fv == mergedview[j - 1 - metasview.len()]);
                }
            }
        }

        let mut file2: Vec<u8> = Vec::new();
        let nn = newframes.len();
        let mut w: usize = 0;
        proof {
            assert(log_bytes(frames_view(newframes@.take(0))) =~= Seq::<u8>::empty());
            assert(frames_view(newframes@.take(0)) =~= Seq::<FrameView>::empty());
        }
        while w < nn
            invariant
                nn == newframes@.len(),
                0 <= w <= nn,
                file2@ == log_bytes(frames_view(newframes@.take(w as int))),
                forall|j: int|
                    0 <= j < newframes@.len() ==> frame_wf(#[trigger] frames_view(newframes@)[j]),
            decreases nn - w,
        {
            proof {
                assert(frames_view(newframes@)[w as int] == newframes@[w as int]@);
            }
            let bytes = frame_to_bytes(&newframes[w]);
            let mut bytes = bytes;
            file2.append(&mut bytes);
            proof {
                let tw = frames_view(newframes@.take(w + 1 as int));
                assert(tw =~= frames_view(newframes@.take(w as int)).push(
                    newframes@[w as int]@,
                ));
                lemma_log_bytes_push(frames_view(newframes@.take(w as int)), newframes@[w as int]@);
            }
            w = w + 1;
        }
        proof {
            assert(newframes@.take(nn as int) =~= newframes@);
        }

        self.frames = newframes;
        self.file = file2;
        proof {
            let newmodel = frames_view(self.frames@);
            lemma_metas_of_concat(descview + metasview, mergedview);
            lemma_metas_of_concat(descview, metasview);
            assert(descview.drop_last() =~= Seq::<FrameView>::empty());
            assert(model[0] == old(self).frames@[0]@);
            assert(model[0] is Desc);
            assert(metas_of(Seq::<FrameView>::empty()) =~= Seq::<MetaView>::empty());
            assert(metas_of(descview) =~= Seq::<MetaView>::empty());
            lemma_metas_of_metaframes(model);
            lemma_fold_pairs_counters(cview);
            lemma_metas_of_counters(mergedview);
            assert(newmodel =~= (descview + metasview) + mergedview);
            assert(metas_of(newmodel) =~= metas_of(model));
            assert(table_view(self.counters@) =~= metas_of(newmodel));
            assert(newmodel[0] == model[0]);
            assert(table_view(self.counters@).len() as int == tablen);
            assert forall|i2: int| 0 <= i2 < self.frames@.len() implies frame_valid(
                #[trigger] self.frames@[i2]@,
                table_view(self.counters@).len() as int,
            ) by {
                assert(self.frames@[i2]@ == frames_view(newframes@)[i2]);
                assert(frame_valid(frames_view(newframes@)[i2], tablen));
            }
            assert(self.wf());
            lemma_fold_shrinks(model);
            assert(self.file@.len() <= old(self).file@.len());
        }
    }

    /// Parse the stored bytes back into frames: exactly the frames written,
    /// in order.
    pub fn read_all(&self) -> (r: Option<Vec<TraceFrame>>)
        requires
            self.wf(),
        ensures
            r is Some,
            frames_view(r->0@) == self.frames_model(),
    {
        proof {
            assert(self.file@.subrange(0, self.file@.len() as int) =~= self.file@);
            lemma_dec_log(self.file@, 0, frames_view(self.frames@));
        }
        read_log(&self.file)
    }
}

/// Round trip: a file holding exactly an encoded frame run parses back to
/// the very frames, in order.
pub proof fn lemma_trace_roundtrip(frames: Seq<FrameView>)
    requires
        frames_wf(frames),
    ensures
        crate::trace_codec::dec_log_at(log_bytes(frames), 0) == Some(frames),
{
    let b = log_bytes(frames);
    assert(b.subrange(0, b.len() as int) =~= b);
    lemma_dec_log(b, 0, frames);
}

/// Appending one frame appends its bytes.
pub proof fn lemma_log_bytes_push(fs: Seq<FrameView>, f: FrameView)
    ensures
        log_bytes(fs.push(f)) =~= log_bytes(fs) + frame_bytes(f),
    decreases fs.len(),
{
    if fs.len() == 0 {
        assert(fs.push(f)[0] == f);
        assert(fs.push(f).drop_first() =~= Seq::<FrameView>::empty());
        assert(fs =~= Seq::<FrameView>::empty());
        assert(log_bytes(Seq::<FrameView>::empty()) =~= Seq::<u8>::empty());
        assert(log_bytes(fs.push(f)) =~= frame_bytes(f) + Seq::<u8>::empty());
    } else {
        assert(fs.push(f)[0] == fs[0]);
        assert(fs.push(f).drop_first() =~= fs.drop_first().push(f));
        lemma_log_bytes_push(fs.drop_first(), f);
        assert(log_bytes(fs.push(f)) =~= frame_bytes(fs[0]) + log_bytes(fs.drop_first().push(f)));
        assert(log_bytes(fs) =~= frame_bytes(fs[0]) + log_bytes(fs.drop_first()));
        assert(frame_bytes(fs[0]) + (log_bytes(fs.drop_first()) + frame_bytes(f)) =~= (
        frame_bytes(fs[0]) + log_bytes(fs.drop_first())) + frame_bytes(f));
    }
}

/// Appending one frame appends its interning record, if it carries one.
pub proof fn lemma_metas_of_push(fs: Seq<FrameView>, f: FrameView)
    ensures
        metas_of(fs.push(f)) =~= metas_of(fs) + (match f {
            FrameView::CounterMetadata { ts: _, metadata } => seq![metadata],
            _ => Seq::<MetaView>::empty(),
        }),
{
    assert(fs.push(f).drop_last() =~= fs);
    assert(fs.push(f).last() == f);
}

/// True of a counters frame.
pub open spec fn is_counters(f: FrameView) -> bool {
    f is Counters
}

/// True of an interning frame.
pub open spec fn is_meta(f: FrameView) -> bool {
    f is CounterMetadata
}

/// The counters frames of a list, in order.
pub open spec fn counters_of(fs: Seq<FrameView>) -> Seq<FrameView>
    decreases fs.len(),
{
    if fs.len() == 0 {
        Seq::empty()
    } else {
        counters_of(fs.drop_last()) + (if is_counters(fs.last()) {
            seq![fs.last()]
        } else {
            Seq::empty()
        })
    }
}

/// The interning frames of a list, in order.
pub open spec fn metaframes_of(fs: Seq<FrameView>) -> Seq<FrameView>
    decreases fs.len(),
{
    if fs.len() == 0 {
        Seq::empty()
    } else {
        metaframes_of(fs.drop_last()) + (if is_meta(fs.last()) {
            seq![fs.last()]
        } else {
            Seq::empty()
        })
    }
}

/// Index of the sample carrying `id`, or -1 when none does.
pub open spec fn tc_find(cs: Seq<TraceCounter>, id: u64) -> int
    decreases cs.len(),
{
    if cs.len() == 0 {
        -1
    } else if cs[0].id == id {
        0
    } else {
        let r = tc_find(cs.drop_first(), id);
        if r < 0 {
            -1
        } else {
            r + 1
        }
    }
}

/// What `tc_find` returns.
pub proof fn lemma_tc_find(cs: Seq<TraceCounter>, id: u64)
    ensures
        tc_find(cs, id) >= 0 ==> 0 <= tc_find(cs, id) < cs.len() && cs[tc_find(cs, id)].id == id,
        tc_find(cs, id) < 0 ==> forall|i: int| 0 <= i < cs.len() ==> cs[i].id != id,
        forall|i: int| 0 <= i < cs.len() && cs[i].id == id ==> 0 <= tc_find(cs, id) <= i,
    decreases cs.len(),
{
    if cs.len() > 0 {
        lemma_tc_find(cs.drop_first(), id);
        if cs[0].id != id {
            assert(forall|i: int| 1 <= i < cs.len() ==> cs[i] == cs.drop_first()[i - 1]);
        }
    }
}

/// The samples of `a` whose id does not occur in `b`, in order.
pub open spec fn samples_not_in(a: Seq<TraceCounter>, b: Seq<TraceCounter>) -> Seq<TraceCounter>
    decreases a.len(),
{
    if a.len() == 0 {
        Seq::empty()
    } else {
        samples_not_in(a.drop_last(), b) + (if tc_find(b, a.last().id) < 0 {
            seq![a.last()]
        } else {
            Seq::empty()
        })
    }
}

/// Two sample lists combined: every sample of `b`, merged with its `a`
/// partner when one exists, then the samples only `a` carries.
pub open spec fn merge_samples(a: Seq<TraceCounter>, b: Seq<TraceCounter>) -> Seq<TraceCounter> {
    b.map_values(
        |tc: TraceCounter|
            {
                let i = tc_find(a, tc.id);
                if i >= 0 && crate::counters::same_variant(a[i].value, tc.value) {
                    TraceCounter {
                        id: tc.id,
                        value: crate::counters::spec_merge(a[i].value, tc.value),
                    }
                } else {
                    tc
                }
            },
    ) + samples_not_in(a, b)
}

/// Two counters frames combined: their timestamps averaged, their samples
/// merged by id.
pub open spec fn frame_sum(x: FrameView, y: FrameView) -> FrameView
    recommends
        x is Counters,
        y is Counters,
{
    FrameView::Counters {
        ts: ts_mean(x->Counters_ts as int, y->Counters_ts as int) as u64,
        counters: merge_samples(x->Counters_counters, y->Counters_counters),
    }
}

/// Adjacent counters frames combined pairwise; an unpaired trailing frame
/// is dropped.
pub open spec fn fold_pairs(cfs: Seq<FrameView>) -> Seq<FrameView>
    decreases cfs.len(),
{
    if cfs.len() >= 2 {
        seq![frame_sum(cfs[0], cfs[1])] + fold_pairs(cfs.skip(2))
    } else {
        Seq::empty()
    }
}

/// A folded trace: the description first, then every interning frame in
/// order, then the counters frames combined pairwise.
pub open spec fn fold_frames(fs: Seq<FrameView>) -> Seq<FrameView>
    recommends
        fs.len() >= 1,
{
    seq![fs[0]] + metaframes_of(fs) + fold_pairs(counters_of(fs))
}


/// A tagged value's bytes are decided by its variant alone.
proof fn lemma_enc_ctype_len(v: CounterType)
    ensures
        v is Counter ==> enc_ctype(v).len() == 17,
        v is Gauge ==> enc_ctype(v).len() == 33,
{
    vstd::bytes::lemma_auto_spec_u64_to_from_le_bytes();
}

/// Encoded sample lists split over concatenation.
proof fn lemma_enc_tcs_concat(u: Seq<TraceCounter>, v: Seq<TraceCounter>)
    ensures
        enc_tcs(u + v).len() == enc_tcs(u).len() + enc_tcs(v).len(),
    decreases v.len(),
{
    if v.len() == 0 {
        assert(u + v =~= u);
    } else {
        assert((u + v).drop_last() =~= u + v.drop_last());
        assert((u + v).last() == v.last());
        lemma_enc_tcs_concat(u, v.drop_last());
    }
}

/// Folding a pair's samples into the later frame keeps each sample's size:
/// a merged value stays in its variant, an unmatched one is kept as it is.
proof fn lemma_enc_merge_mapped_len(a: Seq<TraceCounter>, b: Seq<TraceCounter>)
    ensures
        enc_tcs(
            b.map_values(
                |tc: TraceCounter|
                    {
                        let i = tc_find(a, tc.id);
                        if i >= 0 && crate::counters::same_variant(a[i].value, tc.value) {
                            TraceCounter {
                                id: tc.id,
                                value: crate::counters::spec_merge(a[i].value, tc.value),
                            }
                        } else {
                            tc
                        }
                    },
            ),
        ).len() == enc_tcs(b).len(),
    decreases b.len(),
{
    let g = |tc: TraceCounter|
        {
            let i = tc_find(a, tc.id);
            if i >= 0 && crate::counters::same_variant(a[i].value, tc.value) {
                TraceCounter { id: tc.id, value: crate::counters::spec_merge(a[i].value, tc.value) }
            } else {
                tc
            }
        };
    if b.len() > 0 {
        lemma_enc_merge_mapped_len(a, b.drop_last());
        assert(b.map_values(g).drop_last() =~= b.drop_last().map_values(g));
        assert(b.map_values(g).last() == g(b.last()));
        lemma_enc_ctype_len(b.last().value);
        lemma_enc_ctype_len(g(b.last()).value);
        assert(enc_tc(g(b.last())).len() == enc_tc(b.last()).len());
    }
}

/// The samples only the earlier frame carries take no more bytes than that
/// whole frame's samples.
proof fn lemma_enc_not_in_len(a: Seq<TraceCounter>, b: Seq<TraceCounter>)
    ensures
        enc_tcs(samples_not_in(a, b)).len() <= enc_tcs(a).len(),
    decreases a.len(),
{
    if a.len() > 0 {
        lemma_enc_not_in_len(a.drop_last(), b);
        if tc_find(b, a.last().id) < 0 {
            let u = samples_not_in(a.drop_last(), b);
            assert((u + seq![a.last()]).drop_last() =~= u);
            assert((u + seq![a.last()]).last() == a.last());
        } else {
            assert(samples_not_in(a, b) == samples_not_in(a.drop_last(), b));
        }
    }
}

/// Two frames' merged samples never take more bytes than the two sample
/// lists together.
proof fn lemma_merge_samples_bytes(a: Seq<TraceCounter>, b: Seq<TraceCounter>)
    ensures
        enc_tcs(merge_samples(a, b)).len() <= enc_tcs(a).len() + enc_tcs(b).len(),
{
    let mapped = b.map_values(
        |tc: TraceCounter|
            {
                let i = tc_find(a, tc.id);
                if i >= 0 && crate::counters::same_variant(a[i].value, tc.value) {
                    TraceCounter {
                        id: tc.id,
                        value: crate::counters::spec_merge(a[i].value, tc.value),
                    }
                } else {
                    tc
                }
            },
    );
    lemma_enc_tcs_concat(mapped, samples_not_in(a, b));
    lemma_enc_merge_mapped_len(a, b);
    lemma_enc_not_in_len(a, b);
}

/// A combined pair is stored in no more bytes than the pair itself.
proof fn lemma_frame_sum_bytes(x: FrameView, y: FrameView)
    requires
        x is Counters,
        y is Counters,
    ensures
        frame_bytes(frame_sum(x, y)).len() <= frame_bytes(x).len() + frame_bytes(y).len(),
{
    vstd::bytes::lemma_auto_spec_u64_to_from_le_bytes();
    lemma_merge_samples_bytes(x->Counters_counters, y->Counters_counters);
}

/// Log bytes split over concatenation.
proof fn lemma_log_bytes_concat(u: Seq<FrameView>, v: Seq<FrameView>)
    ensures
        log_bytes(u + v).len() == log_bytes(u).len() + log_bytes(v).len(),
    decreases u.len(),
{
    if u.len() == 0 {
        assert(u + v =~= v);
    } else {
        assert((u + v)[0] == u[0]);
        assert((u + v).drop_first() =~= u.drop_first() + v);
        lemma_log_bytes_concat(u.drop_first(), v);
    }
}

/// Pairwise folding never grows the counters frames' bytes.
proof fn lemma_fold_pairs_bytes(cfs: Seq<FrameView>)
    requires
        forall|i: int| 0 <= i < cfs.len() ==> (#[trigger] cfs[i]) is Counters,
    ensures
        log_bytes(fold_pairs(cfs)).len() <= log_bytes(cfs).len(),
    decreases cfs.len(),
{
    if cfs.len() >= 2 {
        let rest = cfs.skip(2);
        assert(forall|i: int| 0 <= i < rest.len() ==> rest[i] == cfs[i + 2]);
        lemma_fold_pairs_bytes(rest);
        lemma_frame_sum_bytes(cfs[0], cfs[1]);
        let folded = fold_pairs(cfs);
        assert(folded[0] == frame_sum(cfs[0], cfs[1]));
        assert(folded.drop_first() =~= fold_pairs(rest));
        assert(log_bytes(folded).len() == frame_bytes(frame_sum(cfs[0], cfs[1])).len()
            + log_bytes(fold_pairs(rest)).len());
        assert(cfs.drop_first()[0] == cfs[1]);
        assert(cfs.drop_first().drop_first() =~= rest);
        assert(log_bytes(cfs.drop_first()).len() == frame_bytes(cfs[1]).len() + log_bytes(
            rest,
        ).len());
        assert(log_bytes(cfs).len() == frame_bytes(cfs[0]).len() + frame_bytes(cfs[1]).len()
            + log_bytes(rest).len());
    }
}

/// Every frame lands in at most one of the two buckets, so together the
/// buckets never outgrow the list; a leading description is counted apart.
proof fn lemma_bucket_bytes(fs: Seq<FrameView>)
    ensures
        log_bytes(metaframes_of(fs)).len() + log_bytes(counters_of(fs)).len() <= log_bytes(
            fs,
        ).len(),
        fs.len() >= 1 && fs[0] is Desc ==> log_bytes(metaframes_of(fs)).len() + log_bytes(
            counters_of(fs),
        ).len() + frame_bytes(fs[0]).len() <= log_bytes(fs).len(),
    decreases fs.len(),
{
    if fs.len() > 0 {
        let u = fs.drop_last();
        let e = fs.last();
        lemma_bucket_bytes(u);
        lemma_log_bytes_push(u, e);
        assert(fs =~= u.push(e));
        if is_meta(e) {
            lemma_log_bytes_push(metaframes_of(u), e);
            assert(metaframes_of(fs) =~= metaframes_of(u).push(e));
            assert(counters_of(fs) == counters_of(u));
        } else if is_counters(e) {
            lemma_log_bytes_push(counters_of(u), e);
            assert(counters_of(fs) =~= counters_of(u).push(e));
            assert(metaframes_of(fs) == metaframes_of(u));
        } else {
            assert(metaframes_of(fs) == metaframes_of(u));
            assert(counters_of(fs) == counters_of(u));
        }
        if fs.len() >= 2 && fs[0] is Desc {
            assert(u[0] == fs[0]);
        }
    }
}

/// Folding a trace never grows its byte log: the description and the
/// interning frames are kept once, and each combined pair is stored in no
/// more bytes than the pair itself.
pub proof fn lemma_fold_shrinks(fs: Seq<FrameView>)
    requires
        fs.len() >= 1,
        fs[0] is Desc,
    ensures
        log_bytes(fold_frames(fs)).len() <= log_bytes(fs).len(),
{
    assert forall|i: int| 0 <= i < counters_of(fs).len() implies (#[trigger] counters_of(
        fs,
    )[i]) is Counters by {
        lemma_counters_of_sub(fs, i);
    }
    lemma_fold_pairs_bytes(counters_of(fs));
    lemma_bucket_bytes(fs);
    let metas = metaframes_of(fs);
    let folded = fold_pairs(counters_of(fs));
    lemma_log_bytes_concat(seq![fs[0]] + metas, folded);
    lemma_log_bytes_concat(seq![fs[0]], metas);
    assert(fold_frames(fs) == seq![fs[0]] + metas + folded);
    let single = seq![fs[0]];
    assert(single.len() == 1);
    assert(single[0] == fs[0]);
    assert(single.drop_first() =~= Seq::<FrameView>::empty());
    assert(log_bytes(single.drop_first()).len() == 0);
    assert(log_bytes(single).len() == frame_bytes(fs[0]).len());
}

/// Splitting `metas_of` over concatenation.
pub proof fn lemma_metas_of_concat(a: Seq<FrameView>, b: Seq<FrameView>)
    ensures
        metas_of(a + b) =~= metas_of(a) + metas_of(b),
    decreases b.len(),
{
    if b.len() == 0 {
        assert(a + b =~= a);
    } else {
        lemma_metas_of_concat(a, b.drop_last());
        assert((a + b).drop_last() =~= a + b.drop_last());
        assert((a + b).last() == b.last());
    }
}

/// A list of counters frames carries no interning record.
pub proof fn lemma_metas_of_counters(fs: Seq<FrameView>)
    requires
        forall|i: int| 0 <= i < fs.len() ==> is_counters(#[trigger] fs[i]),
    ensures
        metas_of(fs) =~= Seq::<MetaView>::empty(),
    decreases fs.len(),
{
    if fs.len() > 0 {
        lemma_metas_of_counters(fs.drop_last());
    }
}

/// The interning records of the interning frames alone are those of the
/// whole list.
pub proof fn lemma_metas_of_metaframes(fs: Seq<FrameView>)
    ensures
        metas_of(metaframes_of(fs)) =~= metas_of(fs),
    decreases fs.len(),
{
    if fs.len() > 0 {
        lemma_metas_of_metaframes(fs.drop_last());
        if is_meta(fs.last()) {
            assert(metaframes_of(fs) =~= metaframes_of(fs.drop_last()) + seq![fs.last()]);
            lemma_metas_of_concat(metaframes_of(fs.drop_last()), seq![fs.last()]);
            assert(seq![fs.last()].drop_last() =~= Seq::<FrameView>::empty());
            assert(metas_of(Seq::<FrameView>::empty()) =~= Seq::<MetaView>::empty());
            assert(metas_of(seq![fs.last()]) =~= seq![fs.last()->CounterMetadata_metadata]);
            assert(metas_of(fs) =~= metas_of(fs.drop_last()) + seq![
                fs.last()->CounterMetadata_metadata,
            ]);
        } else {
            assert(metaframes_of(fs) =~= metaframes_of(fs.drop_last()));
            assert(metas_of(fs) =~= metas_of(fs.drop_last()));
        }
    }
}

/// A pointwise property of a list holds of its interning frames.
pub proof fn lemma_metaframes_of_sub(fs: Seq<FrameView>, i: int)
    requires
        0 <= i < metaframes_of(fs).len(),
    ensures
        exists|j: int| 0 <= j < fs.len() && fs[j] == metaframes_of(fs)[i],
    decreases fs.len(),
{
    if fs.len() > 0 {
        if is_meta(fs.last()) && i == metaframes_of(fs).len() - 1 {
            assert(fs[fs.len() - 1] == metaframes_of(fs)[i]);
        } else {
            lemma_metaframes_of_sub(fs.drop_last(), i);
            let j = choose|j: int|
                0 <= j < fs.drop_last().len() && fs.drop_last()[j] == metaframes_of(
                    fs.drop_last(),
                )[i];
            assert(fs[j] == metaframes_of(fs)[i]);
        }
    }
}

/// A pointwise property of a list holds of its counters frames.
pub proof fn lemma_counters_of_sub(fs: Seq<FrameView>, i: int)
    requires
        0 <= i < counters_of(fs).len(),
    ensures
        exists|j: int| 0 <= j < fs.len() && fs[j] == counters_of(fs)[i],
        is_counters(counters_of(fs)[i]),
    decreases fs.len(),
{
    if fs.len() > 0 {
        if is_counters(fs.last()) && i == counters_of(fs).len() - 1 {
            assert(fs[fs.len() - 1] == counters_of(fs)[i]);
        } else {
            lemma_counters_of_sub(fs.drop_last(), i);
            let j = choose|j: int|
                0 <= j < fs.drop_last().len() && fs.drop_last()[j] == counters_of(
                    fs.drop_last(),
                )[i];
            assert(fs[j] == counters_of(fs)[i]);
        }
    }
}

/// Every frame a pairwise fold yields is a counters frame.
pub proof fn lemma_fold_pairs_counters(cfs: Seq<FrameView>)
    ensures
        forall|i: int|
            0 <= i < fold_pairs(cfs).len() ==> is_counters(#[trigger] fold_pairs(cfs)[i]),
    decreases cfs.len(),
{
    if cfs.len() >= 2 {
        lemma_fold_pairs_counters(cfs.skip(2));
        assert forall|i: int| 0 <= i < fold_pairs(cfs).len() implies is_counters(
            #[trigger] fold_pairs(cfs)[i],
        ) by {
            if i == 0 {
                assert(fold_pairs(cfs)[0] == frame_sum(cfs[0], cfs[1]));
            } else {
                assert(fold_pairs(cfs)[i] == fold_pairs(cfs.skip(2))[i - 1]);
            }
        }
    }
}

/// Extending an even prefix by one pair appends its combined frame.
pub proof fn lemma_fold_pairs_snoc(cfs: Seq<FrameView>, i: int)
    requires
        0 <= i,
        i % 2 == 0,
        i + 1 < cfs.len(),
    ensures
        fold_pairs(cfs.take(i + 2)) =~= fold_pairs(cfs.take(i)) + seq![
            frame_sum(cfs[i], cfs[i + 1]),
        ],
    decreases i,
{
    if i == 0 {
        assert(cfs.take(2)[0] == cfs[0]);
        assert(cfs.take(2)[1] == cfs[1]);
        assert(cfs.take(2).skip(2) =~= Seq::<FrameView>::empty());
        assert(fold_pairs(Seq::<FrameView>::empty()) =~= Seq::<FrameView>::empty());
        assert(fold_pairs(cfs.take(0)) =~= Seq::<FrameView>::empty());
        assert(fold_pairs(cfs.take(2)) =~= seq![frame_sum(cfs[0], cfs[1])] + fold_pairs(
            cfs.take(2).skip(2),
        ));
    } else {
        let rest = cfs.skip(2);
        lemma_fold_pairs_snoc(rest, i - 2);
        assert(cfs.take(i + 2).skip(2) =~= rest.take(i));
        assert(cfs.take(i).skip(2) =~= rest.take(i - 2));
        assert(cfs.take(i + 2)[0] == cfs[0]);
        assert(cfs.take(i + 2)[1] == cfs[1]);
        assert(cfs.take(i)[0] == cfs[0]);
        assert(cfs.take(i)[1] == cfs[1]);
        assert(rest[i - 2] == cfs[i]);
        assert(rest[i - 2 + 1] == cfs[i + 1]);
        assert(fold_pairs(cfs.take(i + 2)) =~= seq![frame_sum(cfs[0], cfs[1])] + fold_pairs(
            rest.take(i),
        ));
        assert(fold_pairs(cfs.take(i)) =~= seq![frame_sum(cfs[0], cfs[1])] + fold_pairs(
            rest.take(i - 2),
        ));
        assert(seq![frame_sum(cfs[0], cfs[1])] + (fold_pairs(rest.take(i - 2)) + seq![
            frame_sum(cfs[i], cfs[i + 1]),
        ]) =~= (seq![frame_sum(cfs[0], cfs[1])] + fold_pairs(rest.take(i - 2))) + seq![
            frame_sum(cfs[i], cfs[i + 1]),
        ]);
    }
}

/// An unpaired trailing frame does not change the fold.
pub proof fn lemma_fold_pairs_odd(cfs: Seq<FrameView>)
    requires
        cfs.len() % 2 == 1,
    ensures
        fold_pairs(cfs) =~= fold_pairs(cfs.take(cfs.len() - 1)),
    decreases cfs.len(),
{
    if cfs.len() == 1 {
        assert(fold_pairs(cfs.take(0)) =~= Seq::<FrameView>::empty());
    } else {
        let rest = cfs.skip(2);
        lemma_fold_pairs_odd(rest);
        assert(cfs.take(cfs.len() - 1).skip(2) =~= rest.take(rest.len() - 1));
        assert(cfs.take(cfs.len() - 1)[0] == cfs[0]);
        assert(cfs.take(cfs.len() - 1)[1] == cfs[1]);
    }
}

/// Samples kept from the first frame are samples of it, absent from the
/// second.
pub proof fn lemma_samples_not_in(a: Seq<TraceCounter>, b: Seq<TraceCounter>, i: int)
    requires
        0 <= i < samples_not_in(a, b).len(),
    ensures
        exists|j: int| 0 <= j < a.len() && a[j] == samples_not_in(a, b)[i],
        tc_find(b, samples_not_in(a, b)[i].id) < 0,
    decreases a.len(),
{
    if a.len() > 0 {
        if tc_find(b, a.last().id) < 0 && i == samples_not_in(a, b).len() - 1 {
            assert(a[a.len() - 1] == samples_not_in(a, b)[i]);
        } else {
            lemma_samples_not_in(a.drop_last(), b, i);
            let j = choose|j: int|
                0 <= j < a.drop_last().len() && a.drop_last()[j] == samples_not_in(
                    a.drop_last(),
                    b,
                )[i];
            assert(a[j] == samples_not_in(a, b)[i]);
        }
    }
}

/// Distinct samples of the first frame stay distinct after filtering.
pub proof fn lemma_samples_not_in_unique(a: Seq<TraceCounter>, b: Seq<TraceCounter>)
    requires
        sample_ids_unique(a),
    ensures
        sample_ids_unique(samples_not_in(a, b)),
    decreases a.len(),
{
    if a.len() > 0 {
        lemma_samples_not_in_unique(a.drop_last(), b);
        let s = samples_not_in(a, b);
        if tc_find(b, a.last().id) < 0 {
            assert forall|i: int, j: int| 0 <= i < j < s.len() implies s[i].id != s[j].id by {
                if j == s.len() - 1 {
                    lemma_samples_not_in(a.drop_last(), b, i);
                    let k = choose|k: int|
                        0 <= k < a.drop_last().len() && a.drop_last()[k] == samples_not_in(
                            a.drop_last(),
                            b,
                        )[i];
                    assert(a[k].id != a.last().id);
                } else {
                    assert(s[i] == samples_not_in(a.drop_last(), b)[i]);
                }
            }
        }
    }
}

/// The combined sample list keeps ids unique and within the id space, and
/// is no longer than either frame's id space allows.
pub proof fn lemma_merge_samples_wf(a: Seq<TraceCounter>, b: Seq<TraceCounter>, n: int)
    requires
        sample_ids_unique(a),
        sample_ids_unique(b),
        forall|i: int| 0 <= i < a.len() ==> #[trigger] a[i].id < n,
        forall|i: int| 0 <= i < b.len() ==> #[trigger] b[i].id < n,
        0 <= n,
    ensures
        sample_ids_unique(merge_samples(a, b)),
        forall|i: int| 0 <= i < merge_samples(a, b).len() ==> #[trigger] merge_samples(a, b)[i].id
            < n,
        merge_samples(a, b).len() <= n,
{
    let m = merge_samples(a, b);
    let mapped = b.map_values(
        |tc: TraceCounter|
            {
                let i = tc_find(a, tc.id);
                if i >= 0 && crate::counters::same_variant(a[i].value, tc.value) {
                    TraceCounter {
                        id: tc.id,
                        value: crate::counters::spec_merge(a[i].value, tc.value),
                    }
                } else {
                    tc
                }
            },
    );
    let kept = samples_not_in(a, b);
    assert(forall|i: int| 0 <= i < mapped.len() ==> #[trigger] mapped[i].id == b[i].id);
    lemma_samples_not_in_unique(a, b);
    assert forall|i: int| 0 <= i < m.len() implies #[trigger] m[i].id < n by {
        if i < mapped.len() {
            assert(tc_find(a, b[i].id) >= 0 ==> mapped[i].id == b[i].id);
        } else {
            lemma_samples_not_in(a, b, i - mapped.len());
            let j = choose|j: int|
                0 <= j < a.len() && a[j] == samples_not_in(a, b)[i - mapped.len()];
        }
    }
    assert forall|i: int, j: int| 0 <= i < j < m.len() implies m[i].id != m[j].id by {
        if j < mapped.len() {
        } else if i < mapped.len() {
            lemma_samples_not_in(a, b, j - mapped.len());
            lemma_tc_find(b, kept[j - mapped.len()].id);
        } else {
        }
    }
    lemma_unique_ids_bound(m, n);
}

/// Distinct ids below `n` leave no room for more than `n` samples.
pub proof fn lemma_unique_ids_bound(cs: Seq<TraceCounter>, n: int)
    requires
        sample_ids_unique(cs),
        forall|i: int| 0 <= i < cs.len() ==> #[trigger] cs[i].id < n,
        0 <= n,
    ensures
        cs.len() <= n,
{
    let ids = cs.map_values(|tc: TraceCounter| tc.id as int);
    assert(forall|i: int| 0 <= i < ids.len() ==> 0 <= #[trigger] ids[i] < n);
    assert(ids.no_duplicates());
    ids.unique_seq_to_set();
    let range = vstd::set_lib::set_int_range(0, n);
    vstd::set_lib::lemma_int_range(0, n);
    assert forall|x: int| ids.to_set().contains(x) implies range.contains(x) by {
        assert(exists|i: int| 0 <= i < ids.len() && ids[i] == x);
    }
    vstd::set_lib::lemma_len_subset(ids.to_set(), range);
}

/// Combine two counters frames: timestamps averaged, samples merged by id.
pub fn frame_sum_exec(x: &TraceFrame, y: &TraceFrame) -> (r: TraceFrame)
    requires
        x@ is Counters,
        y@ is Counters,
    ensures
        r@ == frame_sum(x@, y@),
{
    let (xts, xcs) = match x {
        TraceFrame::Counters { ts, counters } => (*ts, counters),
        TraceFrame::Desc { ts, .. } => (*ts, match x {
            TraceFrame::Counters { ts: _, counters } => counters,
            _ => vstd::pervasive::unreached(),
        }),
        TraceFrame::CounterMetadata { ts, .. } => (*ts, match x {
            TraceFrame::Counters { ts: _, counters } => counters,
            _ => vstd::pervasive::unreached(),
        }),
    };
    let (yts, ycs) = match y {
        TraceFrame::Counters { ts, counters } => (*ts, counters),
        TraceFrame::Desc { ts, .. } => (*ts, match y {
            TraceFrame::Counters { ts: _, counters } => counters,
            _ => vstd::pervasive::unreached(),
        }),
        TraceFrame::CounterMetadata { ts, .. } => (*ts, match y {
            TraceFrame::Counters { ts: _, counters } => counters,
            _ => vstd::pervasive::unreached(),
        }),
    };
    let ghost a = xcs@;
    let ghost b = ycs@;
    let ghost mapped = b.map_values(
        |tc: TraceCounter|
            {
                let i = tc_find(a, tc.id);
                if i >= 0 && crate::counters::same_variant(a[i].value, tc.value) {
                    TraceCounter {
                        id: tc.id,
                        value: crate::counters::spec_merge(a[i].value, tc.value),
                    }
                } else {
                    tc
                }
            },
    );
    let mut merged: Vec<TraceCounter> = Vec::new();
    let n = ycs.len();
    let mut i: usize = 0;
    while i < n
        invariant
            n == b.len(),
            a == xcs@,
            b == ycs@,
            0 <= i <= n,
            merged@ =~= mapped.take(i as int),
            mapped == b.map_values(
                |tc: TraceCounter|
                    {
                        let i = tc_find(a, tc.id);
                        if i >= 0 && crate::counters::same_variant(a[i].value, tc.value) {
                            TraceCounter {
                                id: tc.id,
                                value: crate::counters::spec_merge(a[i].value, tc.value),
                            }
                        } else {
                            tc
                        }
                    },
            ),
        decreases n - i,
    {
        let tc = ycs[i];
        proof {
            lemma_tc_find(a, b[i as int].id);
        }
        let idx = find_sample(xcs, tc.id);
        if idx < xcs.len() {
            let mut v = xcs[idx].value;
            // A variant mismatch keeps the later frame's sample standing.
            let folded = v.merge(&tc.value);
            proof {
                assert(idx as int == tc_find(a, b[i as int].id));
            }
            if folded.is_ok() {
                proof {
                    assert(v == crate::counters::spec_merge(
                        a[idx as int].value,
                        b[i as int].value,
                    ));
                    assert(mapped[i as int] == (TraceCounter {
                        id: b[i as int].id,
                        value: crate::counters::spec_merge(a[idx as int].value, b[i as int].value),
                    }));
                }
                merged.push(TraceCounter { id: tc.id, value: v });
            } else {
                proof {
                    assert(mapped[i as int] == b[i as int]);
                }
                merged.push(tc);
            }
        } else {
            proof {
                assert(mapped[i as int] == b[i as int]);
            }
            merged.push(tc);
        }
        proof {
            assert(merged@ =~= mapped.take(i + 1 as int));
        }
        i = i + 1;
    }
    proof {
        assert(mapped.take(n as int) =~= mapped);
    }
    // Keep the samples only the first frame carries.
    let m = xcs.len();
    let mut k: usize = 0;
    while k < m
        invariant
            m == a.len(),
            a == xcs@,
            b == ycs@,
            0 <= k <= m,
            merged@ =~= mapped + samples_not_in(a.take(k as int), b),
        decreases m - k,
    {
        proof {
            let t1 = a.take(k + 1 as int);
            assert(t1.drop_last() =~= a.take(k as int));
            assert(t1.last() == a[k as int]);
            lemma_tc_find(b, a[k as int].id);
        }
        let idx = find_sample(ycs, xcs[k].id);
        if idx >= ycs.len() {
            merged.push(xcs[k]);
        }
        proof {
            assert(merged@ =~= mapped + samples_not_in(a.take(k + 1 as int), b));
        }
        k = k + 1;
    }
    proof {
        assert(a.take(m as int) =~= a);
    }
    let ts = mean_u64(xts, yts);
    let r = TraceFrame::Counters { ts, counters: merged };
    proof {
        assert(r@ =~~= frame_sum(x@, y@));
    }
    r
}

/// Index of the sample carrying `id`, or the length when none does.
pub fn find_sample(cs: &Vec<TraceCounter>, id: u64) -> (r: usize)
    ensures
        tc_find(cs@, id) >= 0 ==> r == tc_find(cs@, id),
        tc_find(cs@, id) < 0 ==> r == cs@.len(),
{
    let n = cs.len();
    let mut i: usize = 0;
    proof {
        lemma_tc_find(cs@, id);
    }
    while i < n
        invariant
            n == cs@.len(),
            0 <= i <= n,
            forall|j: int| 0 <= j < i ==> cs@[j].id != id,
        decreases n - i,
    {
        if cs[i].id == id {
            proof {
                lemma_tc_find(cs@, id);
            }
            return i;
        }
        i = i + 1;
        proof {
            lemma_tc_find(cs@, id);
        }
    }
    n
}


/// One job's trace with its termination flag.
pub struct Trace {
    pub desc: JobDesc,
    pub state: TraceState,
    pub done: bool,
}

impl Trace {
    /// The trace is usable when its state is.
    pub open spec fn wf(&self) -> bool {
        self.state.wf()
    }

    /// Open a fresh trace for one job.
    pub fn new(desc: &JobDesc, now_us: u64, max_size: usize) -> (r: Trace)
        requires
            desc.jobid@.len() <= field_bound(),
            desc.command@.len() <= field_bound(),
            desc.nodelist@.len() <= field_bound(),
            desc.partition@.len() <= field_bound(),
            desc.cluster@.len() <= field_bound(),
            desc.run_dir@.len() <= field_bound(),
        ensures
            r.wf(),
            r.desc == *desc,
            !r.done,
            r.state.frames_model() =~= seq![FrameView::Desc { ts: now_us, desc: desc@ }],
    {
        Trace { desc: desc.clone(), state: TraceState::new(desc, now_us, max_size), done: false }
    }

    /// The job this trace records.
    pub fn desc(&self) -> (r: &JobDesc)
        ensures
            r == &self.desc,
    {
        &self.desc
    }

    /// Append one snapshot batch; a finished trace takes no more.  Returns
    /// the doubled sampling period when the append made the trace fold.
    pub fn push(&mut self, counters: &Vec<CounterSnapshot>, now_us: u64, period_us: u64) -> (r:
        Result<Option<u64>, ProxyErr>)
        requires
            old(self).wf(),
            names_unique(counters@),
            counters@.len() + old(self).state.counters@.len() <= field_bound(),
            forall|i: int|
                0 <= i < counters@.len() ==> (#[trigger] counters@[i]).name@.len() <= field_bound()
                    && counters@[i].doc@.len() <= field_bound(),
        ensures
            final(self).wf(),
            final(self).desc == old(self).desc,
            final(self).done == old(self).done,
            old(self).done ==> r is Err && final(self).state == old(self).state,
            !old(self).done ==> r is Ok && ({
                let appended = old(self).state.frames_model() + pushed_frames(
                    table_view(old(self).state.counters@),
                    snaps_view(counters@),
                    now_us,
                );
                if log_bytes(appended).len() > old(self).state.max_size {
                    final(self).state.frames_model() == fold_frames(appended) && r->Ok_0 == Some(
                        crate::util::sat_add_u64(period_us as int, period_us as int) as u64,
                    )
                } else {
                    final(self).state.frames_model() == appended && r->Ok_0 is None
                }
            }),
    {
        if self.done {
            return Err(ProxyErr::new("Job is done"));
        }
        Ok(self.state.push(counters, now_us, period_us))
    }
}

/// What is publicly known about one trace.
#[derive(Debug, PartialEq)]
pub struct TraceInfo {
    pub desc: JobDesc,
    pub size: usize,
    pub lastwrite: u64,
}

/// The store of every live trace, keyed by job identifier.
pub struct TraceView {
    pub traces: Vec<Trace>,
}

/// Index of the trace for `jobid`, or -1 when none exists.
pub open spec fn trace_find(ts: Seq<Trace>, jobid: Seq<char>) -> int
    decreases ts.len(),
{
    if ts.len() == 0 {
        -1
    } else if ts[0].desc.jobid@ == jobid {
        0
    } else {
        let r = trace_find(ts.drop_first(), jobid);
        if r < 0 {
            -1
        } else {
            r + 1
        }
    }
}

/// What `trace_find` returns.
pub proof fn lemma_trace_find(ts: Seq<Trace>, jobid: Seq<char>)
    ensures
        trace_find(ts, jobid) >= 0 ==> 0 <= trace_find(ts, jobid) < ts.len() && ts[trace_find(
            ts,
            jobid,
        )].desc.jobid@ == jobid,
        trace_find(ts, jobid) < 0 ==> forall|i: int|
            0 <= i < ts.len() ==> ts[i].desc.jobid@ != jobid,
        forall|i: int|
            0 <= i < ts.len() && ts[i].desc.jobid@ == jobid ==> 0 <= trace_find(ts, jobid) <= i,
    decreases ts.len(),
{
    if ts.len() > 0 {
        lemma_trace_find(ts.drop_first(), jobid);
        if ts[0].desc.jobid@ != jobid {
            assert(forall|i: int| 1 <= i < ts.len() ==> ts[i] == ts.drop_first()[i - 1]);
        }
    }
}

impl TraceView {
    /// Every trace is well formed and jobs are registered once.
    pub open spec fn wf(&self) -> bool {
        &&& forall|i: int| 0 <= i < self.traces@.len() ==> (#[trigger] self.traces@[i]).wf()
        &&& forall|i: int, j: int|
            0 <= i < j < self.traces@.len() ==> self.traces@[i].desc.jobid@
                != self.traces@[j].desc.jobid@
    }

    /// An empty store.
    pub fn new() -> (r: TraceView)
        ensures
            r.wf(),
            r.traces@.len() == 0,
    {
        TraceView { traces: Vec::new() }
    }

    /// Index of the trace for `jobid`, or the length when none exists.
    pub fn find(&self, jobid: &str) -> (r: usize)
        ensures
            trace_find(self.traces@, jobid@) >= 0 ==> r == trace_find(self.traces@, jobid@),
            trace_find(self.traces@, jobid@) < 0 ==> r == self.traces@.len(),
    {
        let n = self.traces.len();
        let mut i: usize = 0;
        proof {
            lemma_trace_find(self.traces@, jobid@);
        }
        while i < n
            invariant
                n == self.traces@.len(),
                0 <= i <= n,
                forall|j: int| 0 <= j < i ==> self.traces@[j].desc.jobid@ != jobid@,
            decreases n - i,
        {
            if crate::names::str_eq(self.traces[i].desc.jobid.as_str(), jobid) {
                proof {
                    lemma_trace_find(self.traces@, jobid@);
                }
                return i;
            }
            i = i + 1;
            proof {
                lemma_trace_find(self.traces@, jobid@);
            }
        }
        n
    }

    /// Fetch the trace of a job, opening a fresh one on first sight.
    pub fn get(&mut self, jobdesc: &JobDesc, max_size: usize, now_us: u64) -> (r: usize)
        requires
            old(self).wf(),
            jobdesc.jobid@.len() <= field_bound(),
            jobdesc.command@.len() <= field_bound(),
            jobdesc.nodelist@.len() <= field_bound(),
            jobdesc.partition@.len() <= field_bound(),
            jobdesc.cluster@.len() <= field_bound(),
            jobdesc.run_dir@.len() <= field_bound(),
        ensures
            final(self).wf(),
            r < final(self).traces@.len(),
            final(self).traces@[r as int].desc.jobid@ == jobdesc.jobid@,
            trace_find(old(self).traces@, jobdesc.jobid@) >= 0 ==> final(self).traces@
                == old(self).traces@ && r == trace_find(old(self).traces@, jobdesc.jobid@),
            trace_find(old(self).traces@, jobdesc.jobid@) < 0 ==> final(self).traces@.len()
                == old(self).traces@.len() + 1 && final(self).traces@.drop_last()
                == old(self).traces@ && final(self).traces@.last().desc == *jobdesc
                && final(self).traces@.last().state.frames_model() =~= seq![
                FrameView::Desc { ts: now_us, desc: jobdesc@ },
            ],
    {
        proof {
            lemma_trace_find(self.traces@, jobdesc.jobid@);
        }
        let i = self.find(jobdesc.jobid.as_str());
        if i < self.traces.len() {
            i
        } else {
            let t = Trace::new(jobdesc, now_us, max_size);
            self.traces.push(t);
            proof {
                assert(forall|k: int|
                    0 <= k < self.traces@.len() - 1 ==> self.traces@[k] == old(self).traces@[k]);
            }
            self.traces.len() - 1
        }
    }

    /// Mark a job's trace complete; it takes no further frames.
    pub fn done(&mut self, jobid: &str)
        requires
            old(self).wf(),
        ensures
            final(self).wf(),
            final(self).traces@.len() == old(self).traces@.len(),
            ({
                let i = trace_find(old(self).traces@, jobid@);
                if i >= 0 {
                    final(self).traces@[i].done && final(self).traces@[i].desc
                        == old(self).traces@[i].desc && final(self).traces@[i].state
                        == old(self).traces@[i].state && forall|j: int|
                        0 <= j < old(self).traces@.len() && j != i ==> final(self).traces@[j]
                            == old(self).traces@[j]
                } else {
                    final(self).traces@ == old(self).traces@
                }
            }),
    {
        proof {
            lemma_trace_find(self.traces@, jobid@);
        }
        let i = self.find(jobid);
        if i < self.traces.len() {
            let t = &mut self.traces[i];
            t.done = true;
            proof {
                assert(forall|j: int|
                    0 <= j < self.traces@.len() && j != i as int ==> self.traces@[j] == old(
                        self,
                    ).traces@[j]);
            }
        }
    }

    /// What is known of every live trace.
    pub fn list(&self) -> (r: Vec<TraceInfo>)
        ensures
            r@.len() == self.traces@.len(),
            forall|i: int|
                0 <= i < r@.len() ==> (#[trigger] r@[i]).desc == self.traces@[i].desc && r@[i].size
                    == self.traces@[i].state.file@.len() && r@[i].lastwrite
                    == self.traces@[i].state.lastwrite,
    {
        let mut ret: Vec<TraceInfo> = Vec::new();
        let n = self.traces.len();
        let mut i: usize = 0;
        while i < n
            invariant
                n == self.traces@.len(),
                0 <= i <= n,
                ret@.len() == i,
                forall|j: int|
                    0 <= j < i ==> (#[trigger] ret@[j]).desc == self.traces@[j].desc && ret@[j].size
                        == self.traces@[j].state.file@.len() && ret@[j].lastwrite
                        == self.traces@[j].state.lastwrite,
            decreases n - i,
        {
            let t = &self.traces[i];
            ret.push(
                TraceInfo {
                    desc: t.desc.clone(),
                    size: t.state.file.len(),
                    lastwrite: t.state.lastwrite,
                },
            );
            i = i + 1;
        }
        ret
    }

    /// The interned metric names of one job's trace.
    pub fn metrics(&self, jobid: &str) -> (r: Result<Vec<String>, ProxyErr>)
        requires
            self.wf(),
        ensures
            ({
                let i = trace_find(self.traces@, jobid@);
                if i >= 0 {
                    r is Ok && r->Ok_0@.len() == self.traces@[i].state.counters@.len() && forall|
                        j: int,
                    |
                        0 <= j < r->Ok_0@.len() ==> (#[trigger] r->Ok_0@[j])@
                            == self.traces@[i].state.counters@[j].name@
                } else {
                    r is Err
                }
            }),
    {
        proof {
            lemma_trace_find(self.traces@, jobid@);
        }
        let i = self.find(jobid);
        if i >= self.traces.len() {
            return Err(ProxyErr::new("No such jobid"));
        }
        let t = &self.traces[i];
        let mut ret: Vec<String> = Vec::new();
        let n = t.state.counters.len();
        let mut j: usize = 0;
        while j < n
            invariant
                n == t.state.counters@.len(),
                0 <= j <= n,
                ret@.len() == j,
                forall|k: int|
                    0 <= k < j ==> (#[trigger] ret@[k])@ == t.state.counters@[k].name@,
            decreases n - j,
        {
            ret.push(t.state.counters[j].name.clone());
            j = j + 1;
        }
        Ok(ret)
    }
}


/// The summed contribution of one id in a sample list, for a chosen
/// quantity of the value.
pub open spec fn sum_by(cs: Seq<TraceCounter>, id: u64, f: spec_fn(CounterType) -> int) -> int
    decreases cs.len(),
{
    if cs.len() == 0 {
        0
    } else {
        sum_by(cs.drop_last(), id, f) + (if cs.last().id == id {
            f(cs.last().value)
        } else {
            0
        })
    }
}

/// Sums split over concatenation.
pub proof fn lemma_sum_by_concat(
    x: Seq<TraceCounter>,
    y: Seq<TraceCounter>,
    id: u64,
    f: spec_fn(CounterType) -> int,
)
    ensures
        sum_by(x + y, id, f) == sum_by(x, id, f) + sum_by(y, id, f),
    decreases y.len(),
{
    if y.len() == 0 {
        assert(x + y =~= x);
    } else {
        lemma_sum_by_concat(x, y.drop_last(), id, f);
        assert((x + y).drop_last() =~= x + y.drop_last());
        assert((x + y).last() == y.last());
    }
}

/// With unique ids, the sum for an id is the one matching sample's
/// contribution, or zero.
pub proof fn lemma_sum_by_find(cs: Seq<TraceCounter>, id: u64, f: spec_fn(CounterType) -> int)
    requires
        sample_ids_unique(cs),
    ensures
        tc_find(cs, id) >= 0 ==> sum_by(cs, id, f) == f(cs[tc_find(cs, id)].value),
        tc_find(cs, id) < 0 ==> sum_by(cs, id, f) == 0,
    decreases cs.len(),
{
    lemma_tc_find(cs, id);
    if cs.len() > 0 {
        assert(forall|i: int|
            0 <= i < cs.drop_last().len() ==> cs.drop_last()[i] == cs[i]);
        lemma_sum_by_find(cs.drop_last(), id, f);
        lemma_tc_find(cs.drop_last(), id);
        if cs.last().id == id {
            assert(tc_find(cs.drop_last(), id) < 0);
            assert(tc_find(cs, id) >= 0);
            assert(cs[tc_find(cs, id)].id == id);
            assert(tc_find(cs, id) == cs.len() - 1);
        } else {
            if tc_find(cs, id) >= 0 {
                assert(cs[tc_find(cs, id)].id == id);
                assert(tc_find(cs, id) < cs.len() - 1);
                assert(cs.drop_last()[tc_find(cs, id)] == cs[tc_find(cs, id)]);
                assert(tc_find(cs.drop_last(), id) >= 0);
                assert(cs.drop_last()[tc_find(cs.drop_last(), id)].id == id);
                assert(tc_find(cs.drop_last(), id) == tc_find(cs, id));
            } else {
                assert(forall|i: int| 0 <= i < cs.len() ==> cs[i].id != id);
                assert(tc_find(cs.drop_last(), id) < 0);
            }
        }
    }
}

/// Combining two frames' samples adds their contributions, whenever the
/// chosen quantity is additive under merging of the shared id.
pub proof fn lemma_merge_samples_sum(
    a: Seq<TraceCounter>,
    b: Seq<TraceCounter>,
    id: u64,
    f: spec_fn(CounterType) -> int,
)
    requires
        sample_ids_unique(a),
        sample_ids_unique(b),
        tc_find(a, id) >= 0 && tc_find(b, id) >= 0 ==> crate::counters::same_variant(
            a[tc_find(a, id)].value,
            b[tc_find(b, id)].value,
        ) && f(
            crate::counters::spec_merge(a[tc_find(a, id)].value, b[tc_find(b, id)].value),
        ) == f(a[tc_find(a, id)].value) + f(b[tc_find(b, id)].value),
    ensures
        sum_by(merge_samples(a, b), id, f) == sum_by(a, id, f) + sum_by(b, id, f),
{
    let mapped = b.map_values(
        |tc: TraceCounter|
            {
                let i = tc_find(a, tc.id);
                if i >= 0 && crate::counters::same_variant(a[i].value, tc.value) {
                    TraceCounter {
                        id: tc.id,
                        value: crate::counters::spec_merge(a[i].value, tc.value),
                    }
                } else {
                    tc
                }
            },
    );
    let kept = samples_not_in(a, b);
    lemma_sum_by_concat(mapped, kept, id, f);
    lemma_tc_find(a, id);
    lemma_tc_find(b, id);
    // The mapped part behaves like `b`, with the shared contribution folded
    // in.
    assert(mapped.len() == b.len());
    assert(forall|i: int| 0 <= i < mapped.len() ==> #[trigger] mapped[i].id == b[i].id);
    assert(sample_ids_unique(mapped));
    lemma_sum_by_find(mapped, id, f);
    lemma_sum_by_find(b, id, f);
    lemma_sum_by_find(a, id, f);
    lemma_find_same_ids(mapped, b, id);
    lemma_samples_not_in_unique(a, b);
    lemma_sum_by_find(kept, id, f);
    if tc_find(b, id) >= 0 {
        // The shared or remote sample lands in the mapped part; nothing of
        // this id is kept from `a` alone.
        assert(mapped[tc_find(b, id)].id == id);
        assert(tc_find(mapped, id) == tc_find(b, id));
        lemma_tc_find(kept, id);
        if tc_find(kept, id) >= 0 {
            lemma_samples_not_in(a, b, tc_find(kept, id));
            assert(false);
        }
        assert(sum_by(kept, id, f) == 0);
    } else {
        // Nothing of this id in `b`: the mapped part contributes nothing.
        lemma_tc_find(mapped, id);
        if tc_find(mapped, id) >= 0 {
            assert(b[tc_find(mapped, id)].id == id);
            assert(false);
        }
        assert(sum_by(mapped, id, f) == 0);
        lemma_tc_find(kept, id);
        if tc_find(a, id) >= 0 {
            lemma_kept_has(a, b, id);
            let k = tc_find(kept, id);
            lemma_samples_not_in(a, b, k);
            let j = choose|j: int| 0 <= j < a.len() && a[j] == kept[k];
            assert(a[j].id == id);
            assert(j == tc_find(a, id));
            assert(sum_by(kept, id, f) == f(a[tc_find(a, id)].value));
        } else {
            if tc_find(kept, id) >= 0 {
                lemma_samples_not_in(a, b, tc_find(kept, id));
                let j = choose|j: int|
                    0 <= j < a.len() && a[j] == kept[tc_find(kept, id)];
                assert(a[j].id == id);
                assert(false);
            }
            assert(sum_by(kept, id, f) == 0);
        }
    }
}

/// Two lists with the same ids in the same places are found alike.
proof fn lemma_find_same_ids(a: Seq<TraceCounter>, b: Seq<TraceCounter>, id: u64)
    requires
        a.len() == b.len(),
        forall|i: int| 0 <= i < a.len() ==> a[i].id == #[trigger] b[i].id,
    ensures
        tc_find(a, id) == tc_find(b, id),
    decreases a.len(),
{
    if a.len() > 0 {
        assert(a[0].id == b[0].id);
        assert forall|i: int| 0 <= i < a.drop_first().len() implies a.drop_first()[i].id
            == #[trigger] b.drop_first()[i].id by {
            assert(a.drop_first()[i] == a[i + 1]);
            assert(b.drop_first()[i] == b[i + 1]);
        }
        lemma_find_same_ids(a.drop_first(), b.drop_first(), id);
    }
}

/// An id of the first frame that the second does not carry is kept.
proof fn lemma_kept_has(a: Seq<TraceCounter>, b: Seq<TraceCounter>, id: u64)
    requires
        tc_find(a, id) >= 0,
        tc_find(b, id) < 0,
    ensures
        tc_find(samples_not_in(a, b), id) >= 0,
    decreases a.len(),
{
    lemma_tc_find(a, id);
    if a.len() > 0 {
        let kept = samples_not_in(a, b);
        if a.last().id == id {
            assert(tc_find(b, a.last().id) < 0);
            assert(kept.last() == a.last());
            lemma_tc_find(kept, id);
            assert(kept[kept.len() - 1].id == id);
        } else {
            assert(forall|i: int|
                0 <= i < a.drop_last().len() ==> a.drop_last()[i] == a[i]);
            lemma_tc_find(a.drop_last(), id);
            assert(a[tc_find(a, id)].id == id);
            assert(tc_find(a, id) < a.len() - 1);
            assert(a.drop_last()[tc_find(a, id)].id == id);
            lemma_kept_has(a.drop_last(), b, id);
            let kp = samples_not_in(a.drop_last(), b);
            lemma_tc_find(kp, id);
            lemma_tc_find(kept, id);
            if tc_find(b, a.last().id) < 0 {
                assert(kept =~= kp.push(a.last()));
                assert(kept[tc_find(kp, id)].id == id);
            } else {
                assert(kept =~= kp);
            }
        }
    }
}

/// The summed contribution of one id across the counters frames of a list.
/// The smaller of two optional readings; an absent side yields the other.
pub open spec fn opt_min(a: Option<int>, b: Option<int>) -> Option<int> {
    match (a, b) {
        (Option::None, x) => x,
        (x, Option::None) => x,
        (Option::Some(x), Option::Some(y)) => Option::Some(
            if x <= y {
                x
            } else {
                y
            },
        ),
    }
}

/// The larger of two optional readings; an absent side yields the other.
pub open spec fn opt_max(a: Option<int>, b: Option<int>) -> Option<int> {
    match (a, b) {
        (Option::None, x) => x,
        (x, Option::None) => x,
        (Option::Some(x), Option::Some(y)) => Option::Some(
            if x >= y {
                x
            } else {
                y
            },
        ),
    }
}

/// The gauge minimum a frame's samples record for `id`, when they carry it.
pub open spec fn min_in(cs: Seq<TraceCounter>, id: u64) -> Option<int> {
    if tc_find(cs, id) >= 0 {
        Option::Some(cs[tc_find(cs, id)].value->Gauge_min as int)
    } else {
        Option::None
    }
}

/// The gauge maximum a frame's samples record for `id`, when they carry it.
pub open spec fn max_in(cs: Seq<TraceCounter>, id: u64) -> Option<int> {
    if tc_find(cs, id) >= 0 {
        Option::Some(cs[tc_find(cs, id)].value->Gauge_max as int)
    } else {
        Option::None
    }
}

/// The samples only the earlier frame carries: present exactly for ids in
/// `a` but not `b`, with `a`'s sample kept whole.
proof fn lemma_not_in_find(a: Seq<TraceCounter>, b: Seq<TraceCounter>, id: u64)
    requires
        sample_ids_unique(a),
    ensures
        sample_ids_unique(samples_not_in(a, b)),
        tc_find(a, id) >= 0 && tc_find(b, id) < 0 ==> tc_find(samples_not_in(a, b), id) >= 0
            && samples_not_in(a, b)[tc_find(samples_not_in(a, b), id)] == a[tc_find(a, id)],
        tc_find(a, id) < 0 || tc_find(b, id) >= 0 ==> tc_find(samples_not_in(a, b), id) < 0,
        forall|j: int|
            0 <= j < samples_not_in(a, b).len() ==> tc_find(
                b,
                (#[trigger] samples_not_in(a, b)[j]).id,
            ) < 0 && tc_find(a, samples_not_in(a, b)[j].id) >= 0 && a[tc_find(
                a,
                samples_not_in(a, b)[j].id,
            )] == samples_not_in(a, b)[j],
    decreases a.len(),
{
    lemma_tc_find(a, id);
    lemma_tc_find(b, id);
    lemma_tc_find(samples_not_in(a, b), id);
    if a.len() > 0 {
        let u = a.drop_last();
        assert(forall|i: int| 0 <= i < u.len() ==> u[i] == a[i]);
        lemma_not_in_find(u, b, id);
        let ku = samples_not_in(u, b);
        let k = samples_not_in(a, b);
        lemma_tc_find(u, id);
        lemma_tc_find(ku, id);
        if tc_find(b, a.last().id) < 0 {
            assert(k == ku.push(a.last()));
            assert(forall|j: int| 0 <= j < ku.len() ==> k[j] == ku[j]);
            assert forall|j: int| 0 <= j < ku.len() implies ku[j].id != a.last().id by {
                assert(tc_find(b, (samples_not_in(u, b)[j]).id) < 0 && tc_find(
                    u,
                    samples_not_in(u, b)[j].id,
                ) >= 0 && u[tc_find(u, samples_not_in(u, b)[j].id)] == samples_not_in(u, b)[j]);
                lemma_tc_find(u, ku[j].id);
                let f = tc_find(u, ku[j].id);
                assert(f >= 0 && u[f] == ku[j]);
                if ku[j].id == a.last().id {
                    assert(a[f] == u[f]);
                    assert(a[f].id == a.last().id);
                    assert(f < a.len() - 1);
                    assert(false);
                }
            }
            assert(sample_ids_unique(k));
            if id == a.last().id {
                assert(tc_find(u, id) < 0);
                assert(tc_find(ku, id) < 0);
                assert(k[k.len() - 1].id == id);
                lemma_tc_find(k, id);
                assert(tc_find(k, id) >= 0);
                assert(k[tc_find(k, id)].id == id);
                if tc_find(k, id) < k.len() - 1 {
                    assert(ku[tc_find(k, id)].id == id);
                    assert(false);
                }
                assert(k[tc_find(k, id)] == a.last());
                assert(tc_find(a, id) == a.len() - 1);
            } else {
                lemma_tc_find(k, id);
                if tc_find(ku, id) >= 0 {
                    assert(k[tc_find(ku, id)].id == id);
                    assert(tc_find(k, id) >= 0);
                    if tc_find(k, id) == k.len() - 1 {
                        assert(k[tc_find(k, id)].id == a.last().id);
                        assert(false);
                    }
                    assert(k[tc_find(k, id)] == ku[tc_find(k, id)]);
                    assert(ku[tc_find(ku, id)] == k[tc_find(ku, id)]);
                    assert(tc_find(k, id) == tc_find(ku, id)) by {
                        assert(ku[tc_find(k, id)].id == id);
                        assert(ku[tc_find(ku, id)].id == id);
                        assert(sample_ids_unique(ku));
                    }
                    assert(tc_find(a, id) >= 0 && tc_find(a, id) < a.len() - 1);
                    assert(u[tc_find(u, id)] == ku[tc_find(ku, id)]);
                    assert(tc_find(u, id) == tc_find(a, id)) by {
                        lemma_tc_find(a, id);
                        assert(a[tc_find(a, id)].id == id);
                        if tc_find(a, id) == a.len() - 1 {
                            assert(false);
                        }
                        assert(u[tc_find(a, id)].id == id);
                        assert(u[tc_find(u, id)].id == id);
                        assert(sample_ids_unique(u));
                    }
                } else {
                    if tc_find(k, id) >= 0 {
                        assert(k[tc_find(k, id)].id == id);
                        if tc_find(k, id) < k.len() - 1 {
                            assert(ku[tc_find(k, id)].id == id);
                            assert(false);
                        }
                        assert(a.last().id == id);
                        assert(false);
                    }
                    if tc_find(a, id) >= 0 && tc_find(b, id) < 0 {
                        assert(a[tc_find(a, id)].id == id);
                        if tc_find(a, id) < a.len() - 1 {
                            assert(u[tc_find(a, id)].id == id);
                            assert(tc_find(u, id) >= 0);
                            assert(false);
                        }
                        assert(a.last().id == id);
                        assert(false);
                    }
                }
            }
        } else {
            assert(k == ku);
            if id == a.last().id {
                assert(tc_find(b, id) >= 0);
            } else {
                if tc_find(a, id) >= 0 {
                    assert(a[tc_find(a, id)].id == id);
                    assert(tc_find(a, id) < a.len() - 1);
                    assert(u[tc_find(a, id)].id == id);
                    assert(tc_find(u, id) >= 0);
                    assert(u[tc_find(u, id)] == a[tc_find(a, id)]) by {
                        assert(u[tc_find(u, id)].id == id);
                        assert(sample_ids_unique(u));
                        assert(tc_find(u, id) == tc_find(a, id));
                    }
                }
                if tc_find(u, id) >= 0 {
                    assert(a[tc_find(u, id)].id == id);
                    assert(tc_find(a, id) >= 0);
                }
            }
        }
        let k2 = samples_not_in(a, b);
        assert forall|j: int| 0 <= j < k2.len() implies tc_find(b, (#[trigger] k2[j]).id) < 0
            && tc_find(a, k2[j].id) >= 0 && a[tc_find(a, k2[j].id)] == k2[j] by {
            if j < ku.len() {
                assert(k2[j] == ku[j]);
                assert(tc_find(b, (samples_not_in(u, b)[j]).id) < 0 && tc_find(
                    u,
                    samples_not_in(u, b)[j].id,
                ) >= 0 && u[tc_find(u, samples_not_in(u, b)[j].id)] == samples_not_in(u, b)[j]);
                lemma_tc_find(u, k2[j].id);
                lemma_tc_find(a, k2[j].id);
                let f = tc_find(u, k2[j].id);
                assert(f >= 0 && u[f] == ku[j]);
                assert(a[f] == u[f]);
                assert(a[f].id == k2[j].id);
                let g = tc_find(a, k2[j].id);
                assert(g >= 0 && a[g].id == k2[j].id);
                if g == a.len() - 1 {
                    assert(a[f].id == a[g].id);
                    assert(f < a.len() - 1);
                    assert(false);
                }
                assert(u[g].id == k2[j].id);
                assert(tc_find(u, k2[j].id) <= g);
                assert(g == f) by {
                    if g != f {
                        assert(u[g].id == u[f].id);
                        assert(false);
                    }
                }
                assert(a[g] == k2[j]);
            } else {
                assert(tc_find(b, a.last().id) < 0);
                assert(k2[j] == a.last());
                lemma_tc_find(a, a.last().id);
                let g = tc_find(a, a.last().id);
                assert(a[a.len() - 1].id == a.last().id);
                assert(g >= 0 && a[g].id == a.last().id);
                if g < a.len() - 1 {
                    assert(a[g].id == a[a.len() - 1].id);
                    assert(false);
                }
                assert(a[g] == a.last());
            }
        }
    }
}

/// Where one merged sample list carries an id, and with what value: a
/// shared id folds the two values, an id only one side carries keeps that
/// side's sample.
proof fn lemma_merge_find(a: Seq<TraceCounter>, b: Seq<TraceCounter>, id: u64)
    requires
        sample_ids_unique(a),
        sample_ids_unique(b),
    ensures
        sample_ids_unique(merge_samples(a, b)),
        tc_find(b, id) >= 0 ==> tc_find(merge_samples(a, b), id) >= 0 && merge_samples(a, b)[
            tc_find(merge_samples(a, b), id)
        ].value == (if tc_find(a, id) >= 0 && crate::counters::same_variant(
            a[tc_find(a, id)].value,
            b[tc_find(b, id)].value,
        ) {
            crate::counters::spec_merge(a[tc_find(a, id)].value, b[tc_find(b, id)].value)
        } else {
            b[tc_find(b, id)].value
        }),
        tc_find(b, id) < 0 && tc_find(a, id) >= 0 ==> tc_find(merge_samples(a, b), id) >= 0
            && merge_samples(a, b)[tc_find(merge_samples(a, b), id)].value == a[tc_find(
            a,
            id,
        )].value,
        tc_find(b, id) < 0 && tc_find(a, id) < 0 ==> tc_find(merge_samples(a, b), id) < 0,
{
    let g = |tc: TraceCounter|
        {
            let i = tc_find(a, tc.id);
            if i >= 0 && crate::counters::same_variant(a[i].value, tc.value) {
                TraceCounter { id: tc.id, value: crate::counters::spec_merge(a[i].value, tc.value) }
            } else {
                tc
            }
        };
    let mapped = b.map_values(g);
    let kept = samples_not_in(a, b);
    let m = merge_samples(a, b);
    assert(m == mapped + kept);
    assert(mapped.len() == b.len());
    assert(forall|i: int| 0 <= i < b.len() ==> (#[trigger] mapped[i]).id == b[i].id);
    lemma_not_in_find(a, b, id);
    lemma_tc_find(a, id);
    lemma_tc_find(b, id);
    lemma_tc_find(mapped, id);
    lemma_tc_find(kept, id);
    lemma_tc_find(m, id);
    assert(sample_ids_unique(mapped));
    assert forall|i: int, j: int|
        0 <= i < mapped.len() && mapped.len() <= j < m.len() implies m[i].id != m[j].id by {
        assert(m[i] == mapped[i]);
        assert(m[j] == kept[j - mapped.len()]);
        assert(tc_find(b, kept[j - mapped.len()].id) < 0);
        lemma_tc_find(b, kept[j - mapped.len()].id);
        assert(b[i].id != kept[j - mapped.len()].id);
    }
    assert forall|i: int, j: int| 0 <= i < j < m.len() implies m[i].id != m[j].id by {
        if j < mapped.len() {
            assert(m[i] == mapped[i] && m[j] == mapped[j]);
        } else if i >= mapped.len() {
            assert(m[i] == kept[i - mapped.len()] && m[j] == kept[j - mapped.len()]);
        }
    }
    assert(sample_ids_unique(m));
    if tc_find(b, id) >= 0 {
        let fb = tc_find(b, id);
        assert(mapped[fb].id == id);
        assert(m[fb] == mapped[fb]);
        assert(m[fb].id == id);
        assert(tc_find(m, id) >= 0);
        let fm = tc_find(m, id);
        assert(m[fm].id == id);
        assert(fm == fb) by {
            if fm != fb {
                assert(m[fm].id == m[fb].id);
                assert(false);
            }
        }
        assert(m[fm].value == g(b[fb]).value);
        assert(b[fb].id == id);
    } else if tc_find(a, id) >= 0 {
        assert(tc_find(kept, id) >= 0);
        let fk = tc_find(kept, id);
        assert(kept[fk] == a[tc_find(a, id)]);
        assert(m[mapped.len() + fk] == kept[fk]);
        assert(m[mapped.len() + fk].id == id);
        assert(tc_find(m, id) >= 0);
        let fm = tc_find(m, id);
        assert(m[fm].id == id);
        assert(fm == mapped.len() + fk) by {
            if fm != mapped.len() + fk {
                assert(m[fm].id == m[mapped.len() + fk].id);
                assert(false);
            }
        }
    } else {
        if tc_find(m, id) >= 0 {
            let fm = tc_find(m, id);
            assert(m[fm].id == id);
            if fm < mapped.len() {
                assert(b[fm].id == id);
                assert(false);
            } else {
                assert(kept[fm - mapped.len()].id == id);
                assert(tc_find(a, kept[fm - mapped.len()].id) >= 0);
                assert(false);
            }
        }
    }
}

/// Merging two frames' samples takes the smaller minimum and the larger
/// maximum for every gauge id, and keeps a one-sided reading whole.
proof fn lemma_merge_min_max(a: Seq<TraceCounter>, b: Seq<TraceCounter>, id: u64)
    requires
        sample_ids_unique(a),
        sample_ids_unique(b),
        tc_find(a, id) >= 0 ==> a[tc_find(a, id)].value is Gauge,
        tc_find(b, id) >= 0 ==> b[tc_find(b, id)].value is Gauge,
    ensures
        min_in(merge_samples(a, b), id) == opt_min(min_in(a, id), min_in(b, id)),
        max_in(merge_samples(a, b), id) == opt_max(max_in(a, id), max_in(b, id)),
{
    lemma_merge_find(a, b, id);
}

/// The smallest gauge minimum any counters frame of the list records for
/// `id`, when one does.
pub open spec fn frames_min_by(cfs: Seq<FrameView>, id: u64) -> Option<int>
    decreases cfs.len(),
{
    if cfs.len() == 0 {
        Option::None
    } else {
        opt_min(
            frames_min_by(cfs.drop_last(), id),
            min_in(cfs.last()->Counters_counters, id),
        )
    }
}

/// The largest gauge maximum any counters frame of the list records for
/// `id`, when one does.
pub open spec fn frames_max_by(cfs: Seq<FrameView>, id: u64) -> Option<int>
    decreases cfs.len(),
{
    if cfs.len() == 0 {
        Option::None
    } else {
        opt_max(
            frames_max_by(cfs.drop_last(), id),
            max_in(cfs.last()->Counters_counters, id),
        )
    }
}

/// Range aggregates split off the front frame.
proof fn lemma_frames_range_cons(f: FrameView, rest: Seq<FrameView>, id: u64)
    ensures
        frames_min_by(seq![f] + rest, id) == opt_min(
            min_in(f->Counters_counters, id),
            frames_min_by(rest, id),
        ),
        frames_max_by(seq![f] + rest, id) == opt_max(
            max_in(f->Counters_counters, id),
            frames_max_by(rest, id),
        ),
    decreases rest.len(),
{
    if rest.len() == 0 {
        assert(seq![f] + rest =~= seq![f]);
        assert((seq![f]).drop_last() =~= Seq::<FrameView>::empty());
        assert((seq![f]).last() == f);
        assert(frames_min_by(Seq::<FrameView>::empty(), id) is None);
        assert(frames_min_by(seq![f], id) == opt_min(
            Option::<int>::None,
            min_in(f->Counters_counters, id),
        ));
        assert(frames_min_by(rest, id) is None);
        assert(frames_min_by(seq![f] + rest, id) == opt_min(
            min_in(f->Counters_counters, id),
            frames_min_by(rest, id),
        ));
        assert(frames_max_by(Seq::<FrameView>::empty(), id) is None);
        assert(frames_max_by(seq![f], id) == opt_max(
            Option::<int>::None,
            max_in(f->Counters_counters, id),
        ));
        assert(frames_max_by(rest, id) is None);
        assert(frames_max_by(seq![f] + rest, id) == opt_max(
            max_in(f->Counters_counters, id),
            frames_max_by(rest, id),
        ));
    } else {
        lemma_frames_range_cons(f, rest.drop_last(), id);
        assert((seq![f] + rest).drop_last() =~= seq![f] + rest.drop_last());
        assert((seq![f] + rest).last() == rest.last());
        let mf = min_in(f->Counters_counters, id);
        let md = frames_min_by(rest.drop_last(), id);
        let ml = min_in(rest.last()->Counters_counters, id);
        assert(frames_min_by(seq![f] + rest, id) == opt_min(opt_min(mf, md), ml));
        assert(frames_min_by(rest, id) == opt_min(md, ml));
        assert(opt_min(opt_min(mf, md), ml) == opt_min(mf, opt_min(md, ml)));
        let xf = max_in(f->Counters_counters, id);
        let xd = frames_max_by(rest.drop_last(), id);
        let xl = max_in(rest.last()->Counters_counters, id);
        assert(frames_max_by(seq![f] + rest, id) == opt_max(opt_max(xf, xd), xl));
        assert(frames_max_by(rest, id) == opt_max(xd, xl));
        assert(opt_max(opt_max(xf, xd), xl) == opt_max(xf, opt_max(xd, xl)));
    }
}

/// Folding adjacent counters frames pairwise keeps, for every id whose
/// samples are gauges, the smallest recorded minimum and the largest
/// recorded maximum; an unpaired trailing frame is dropped.
pub proof fn lemma_fold_preserves_ranges(cfs: Seq<FrameView>, id: u64)
    requires
        cfs.len() % 2 == 0,
        forall|i: int|
            0 <= i < cfs.len() ==> (#[trigger] cfs[i]) is Counters && sample_ids_unique(
                cfs[i]->Counters_counters,
            ),
        forall|i: int|
            0 <= i < cfs.len() ==> (tc_find((#[trigger] cfs[i])->Counters_counters, id) >= 0
                ==> cfs[i]->Counters_counters[tc_find(cfs[i]->Counters_counters, id)].value
                is Gauge),
    ensures
        frames_min_by(fold_pairs(cfs), id) == frames_min_by(cfs, id),
        frames_max_by(fold_pairs(cfs), id) == frames_max_by(cfs, id),
    decreases cfs.len(),
{
    if cfs.len() >= 2 {
        let rest = cfs.skip(2);
        assert(forall|i: int| 0 <= i < rest.len() ==> rest[i] == cfs[i + 2]);
        lemma_fold_preserves_ranges(rest, id);
        let xa = cfs[0]->Counters_counters;
        let xb = cfs[1]->Counters_counters;
        lemma_merge_min_max(xa, xb, id);
        let fsum = frame_sum(cfs[0], cfs[1]);
        assert(fsum->Counters_counters == merge_samples(xa, xb));
        assert(fold_pairs(cfs) == seq![fsum] + fold_pairs(rest));
        lemma_frames_range_cons(fsum, fold_pairs(rest), id);
        assert(cfs =~= seq![cfs[0]] + (seq![cfs[1]] + rest));
        lemma_frames_range_cons(cfs[1], rest, id);
        lemma_frames_range_cons(cfs[0], seq![cfs[1]] + rest, id);
        let m0 = min_in(xa, id);
        let m1 = min_in(xb, id);
        let mr = frames_min_by(rest, id);
        assert(frames_min_by(fold_pairs(cfs), id) == opt_min(opt_min(m0, m1), mr));
        assert(frames_min_by(cfs, id) == opt_min(m0, opt_min(m1, mr)));
        assert(opt_min(opt_min(m0, m1), mr) == opt_min(m0, opt_min(m1, mr)));
        let x0 = max_in(xa, id);
        let x1 = max_in(xb, id);
        let xr = frames_max_by(rest, id);
        assert(frames_max_by(fold_pairs(cfs), id) == opt_max(opt_max(x0, x1), xr));
        assert(frames_max_by(cfs, id) == opt_max(x0, opt_max(x1, xr)));
        assert(opt_max(opt_max(x0, x1), xr) == opt_max(x0, opt_max(x1, xr)));
    } else {
        assert(fold_pairs(cfs) =~= Seq::<FrameView>::empty());
        assert(cfs.len() == 0);
    }
}

pub open spec fn frames_sum_by(
    cfs: Seq<FrameView>,
    id: u64,
    f: spec_fn(CounterType) -> int,
) -> int
    decreases cfs.len(),
{
    if cfs.len() == 0 {
        0
    } else {
        frames_sum_by(cfs.drop_last(), id, f) + (match cfs.last() {
            FrameView::Counters { ts: _, counters } => sum_by(counters, id, f),
            _ => 0,
        })
    }
}

/// Fold preserves totals: over an even run of counters frames with unique,
/// additive samples, the pairwise fold leaves each id's summed contribution
/// unchanged.  Instantiated with the counter value it is the running sum;
/// with gauge hits or totals it is the aggregate.
pub proof fn lemma_fold_preserves_totals(
    cfs: Seq<FrameView>,
    id: u64,
    f: spec_fn(CounterType) -> int,
)
    requires
        cfs.len() % 2 == 0,
        forall|i: int|
            0 <= i < cfs.len() ==> (#[trigger] cfs[i]) is Counters && sample_ids_unique(
                cfs[i]->Counters_counters,
            ),
        forall|k: int|
            #![trigger cfs[2 * k]]
            0 <= k && 2 * k + 1 < cfs.len() ==> {
                let a = cfs[2 * k]->Counters_counters;
                let b = cfs[2 * k + 1]->Counters_counters;
                tc_find(a, id) >= 0 && tc_find(b, id) >= 0 ==> crate::counters::same_variant(
                    a[tc_find(a, id)].value,
                    b[tc_find(b, id)].value,
                ) && f(
                    crate::counters::spec_merge(a[tc_find(a, id)].value, b[tc_find(b, id)].value),
                ) == f(a[tc_find(a, id)].value) + f(b[tc_find(b, id)].value)
            },
    ensures
        frames_sum_by(fold_pairs(cfs), id, f) == frames_sum_by(cfs, id, f),
    decreases cfs.len(),
{
    if cfs.len() >= 2 {
        let rest = cfs.skip(2);
        assert(forall|i: int| 0 <= i < rest.len() ==> rest[i] == cfs[i + 2]);
        assert forall|k: int|
            #![trigger rest[2 * k]]
            0 <= k && 2 * k + 1 < rest.len() implies {
            let a = rest[2 * k]->Counters_counters;
            let b = rest[2 * k + 1]->Counters_counters;
            tc_find(a, id) >= 0 && tc_find(b, id) >= 0 ==> crate::counters::same_variant(
                a[tc_find(a, id)].value,
                b[tc_find(b, id)].value,
            ) && f(
                crate::counters::spec_merge(a[tc_find(a, id)].value, b[tc_find(b, id)].value),
            ) == f(a[tc_find(a, id)].value) + f(b[tc_find(b, id)].value)
        } by {
            assert(rest[2 * k] == cfs[2 * (k + 1)]);
            assert(rest[2 * k + 1] == cfs[2 * (k + 1) + 1]);
            assert(cfs[2 * (k + 1)] == cfs[2 * (k + 1)]);
        }
        lemma_fold_preserves_totals(rest, id, f);
        assert(cfs[2 * 0int] == cfs[0]);
        assert(cfs[2 * 0int + 1] == cfs[1]);
        lemma_merge_samples_sum(
            cfs[0]->Counters_counters,
            cfs[1]->Counters_counters,
            id,
            f,
        );
        lemma_frames_sum_by_cons(frame_sum(cfs[0], cfs[1]), fold_pairs(rest), id, f);
        lemma_frames_sum_by_skip2(cfs, id, f);
    }
}

/// Sums split off the front frame.
proof fn lemma_frames_sum_by_cons(
    x: FrameView,
    rest: Seq<FrameView>,
    id: u64,
    f: spec_fn(CounterType) -> int,
)
    ensures
        frames_sum_by(seq![x] + rest, id, f) == (match x {
            FrameView::Counters { ts: _, counters } => sum_by(counters, id, f),
            _ => 0,
        }) + frames_sum_by(rest, id, f),
    decreases rest.len(),
{
    if rest.len() == 0 {
        assert(seq![x] + rest =~= seq![x]);
        assert((seq![x]).drop_last() =~= Seq::<FrameView>::empty());
        assert(frames_sum_by(Seq::<FrameView>::empty(), id, f) == 0);
        assert(frames_sum_by(rest, id, f) == 0);
        assert((seq![x]).last() == x);
        assert(frames_sum_by(seq![x], id, f) == frames_sum_by(Seq::<FrameView>::empty(), id, f)
            + (match x {
            FrameView::Counters { ts: _, counters } => sum_by(counters, id, f),
            _ => 0,
        }));
    } else {
        lemma_frames_sum_by_cons(x, rest.drop_last(), id, f);
        assert((seq![x] + rest).drop_last() =~= seq![x] + rest.drop_last());
        assert((seq![x] + rest).last() == rest.last());
        assert(frames_sum_by(seq![x] + rest, id, f) == frames_sum_by(
            seq![x] + rest.drop_last(),
            id,
            f,
        ) + (match rest.last() {
            FrameView::Counters { ts: _, counters } => sum_by(counters, id, f),
            _ => 0,
        }));
    }
}

/// The sum over a list is the first pair's part plus the remainder's.
proof fn lemma_frames_sum_by_skip2(cfs: Seq<FrameView>, id: u64, f: spec_fn(CounterType) -> int)
    requires
        cfs.len() >= 2,
    ensures
        frames_sum_by(cfs, id, f) == (match cfs[0] {
            FrameView::Counters { ts: _, counters } => sum_by(counters, id, f),
            _ => 0,
        }) + (match cfs[1] {
            FrameView::Counters { ts: _, counters } => sum_by(counters, id, f),
            _ => 0,
        }) + frames_sum_by(cfs.skip(2), id, f),
    decreases cfs.len(),
{
    if cfs.len() == 2 {
        assert(cfs.skip(2) =~= Seq::<FrameView>::empty());
        assert(frames_sum_by(Seq::<FrameView>::empty(), id, f) == 0);
        assert(cfs.drop_last().drop_last() =~= Seq::<FrameView>::empty());
        assert(cfs.drop_last().last() == cfs[0]);
        assert(cfs.last() == cfs[1]);
        assert(frames_sum_by(cfs.drop_last(), id, f) == frames_sum_by(
            cfs.drop_last().drop_last(),
            id,
            f,
        ) + (match cfs[0] {
            FrameView::Counters { ts: _, counters } => sum_by(counters, id, f),
            _ => 0,
        }));
    } else {
        assert(cfs.drop_last().len() >= 2);
        lemma_frames_sum_by_skip2(cfs.drop_last(), id, f);
        assert(cfs.drop_last()[0] == cfs[0]);
        assert(cfs.drop_last()[1] == cfs[1]);
        assert(cfs.drop_last().skip(2) =~= cfs.skip(2).drop_last());
        assert(cfs.skip(2).len() > 0);
        assert(cfs.skip(2).last() == cfs.last());
    }
}


/// The counter-variant value a sample contributes; gauges contribute none.
pub open spec fn counter_value_of(c: CounterType) -> int {
    match c {
        CounterType::Counter { ts: _, value } => value as int,
        CounterType::Gauge { .. } => 0,
    }
}

/// The gauge hits a sample contributes; counters contribute none.
pub open spec fn gauge_hits_of(c: CounterType) -> int {
    match c {
        CounterType::Counter { .. } => 0,
        CounterType::Gauge { min: _, max: _, hits, total: _ } => hits as int,
    }
}

/// The gauge total a sample contributes; counters contribute none.
pub open spec fn gauge_total_of(c: CounterType) -> int {
    match c {
        CounterType::Counter { .. } => 0,
        CounterType::Gauge { min: _, max: _, hits: _, total } => total as int,
    }
}

/// Both frames of one pair agree on the variant of a shared id, and no sum
/// of the pair saturates.
pub open spec fn pair_sums_safe(cfs: Seq<FrameView>, id: u64) -> bool {
    forall|k: int|
        #![trigger cfs[2 * k]]
        0 <= k && 2 * k + 1 < cfs.len() ==> {
            let a = cfs[2 * k]->Counters_counters;
            let b = cfs[2 * k + 1]->Counters_counters;
            tc_find(a, id) >= 0 && tc_find(b, id) >= 0 ==> {
                let x = a[tc_find(a, id)].value;
                let y = b[tc_find(b, id)].value;
                &&& crate::counters::same_variant(x, y)
                &&& (x is Counter ==> crate::util::i64_min() <= x->Counter_value
                    + y->Counter_value <= crate::util::i64_max())
                &&& (x is Gauge ==> x->Gauge_hits + y->Gauge_hits <= crate::util::u64_max()
                    && crate::util::i64_min() <= x->Gauge_total + y->Gauge_total
                    <= crate::util::i64_max())
            }
        }
}

/// Fold preserves totals, concretely: over an even run of counters frames
/// whose pairs agree on variants and never saturate, the pairwise fold
/// keeps, for each id, the sum of counter values, the sum of gauge hits and
/// the sum of gauge totals.
pub proof fn lemma_fold_preserves_sums(cfs: Seq<FrameView>, id: u64)
    requires
        cfs.len() % 2 == 0,
        forall|i: int|
            0 <= i < cfs.len() ==> (#[trigger] cfs[i]) is Counters && sample_ids_unique(
                cfs[i]->Counters_counters,
            ),
        pair_sums_safe(cfs, id),
    ensures
        frames_sum_by(fold_pairs(cfs), id, |c: CounterType| counter_value_of(c)) == frames_sum_by(
            cfs,
            id,
            |c: CounterType| counter_value_of(c),
        ),
        frames_sum_by(fold_pairs(cfs), id, |c: CounterType| gauge_hits_of(c)) == frames_sum_by(
            cfs,
            id,
            |c: CounterType| gauge_hits_of(c),
        ),
        frames_sum_by(fold_pairs(cfs), id, |c: CounterType| gauge_total_of(c)) == frames_sum_by(
            cfs,
            id,
            |c: CounterType| gauge_total_of(c),
        ),
{
    let fv = |c: CounterType| counter_value_of(c);
    let fh = |c: CounterType| gauge_hits_of(c);
    let ft = |c: CounterType| gauge_total_of(c);
    assert forall|k: int|
        #![trigger cfs[2 * k]]
        0 <= k && 2 * k + 1 < cfs.len() implies {
        let a = cfs[2 * k]->Counters_counters;
        let b = cfs[2 * k + 1]->Counters_counters;
        tc_find(a, id) >= 0 && tc_find(b, id) >= 0 ==> fv(
            crate::counters::spec_merge(a[tc_find(a, id)].value, b[tc_find(b, id)].value),
        ) == fv(a[tc_find(a, id)].value) + fv(b[tc_find(b, id)].value) && fh(
            crate::counters::spec_merge(a[tc_find(a, id)].value, b[tc_find(b, id)].value),
        ) == fh(a[tc_find(a, id)].value) + fh(b[tc_find(b, id)].value) && ft(
            crate::counters::spec_merge(a[tc_find(a, id)].value, b[tc_find(b, id)].value),
        ) == ft(a[tc_find(a, id)].value) + ft(b[tc_find(b, id)].value)
    } by {
        let a = cfs[2 * k]->Counters_counters;
        let b = cfs[2 * k + 1]->Counters_counters;
        if tc_find(a, id) >= 0 && tc_find(b, id) >= 0 {
            let x = a[tc_find(a, id)].value;
            let y = b[tc_find(b, id)].value;
            assert(crate::counters::same_variant(x, y));
        }
    }
    lemma_fold_preserves_totals(cfs, id, fv);
    lemma_fold_preserves_totals(cfs, id, fh);
    lemma_fold_preserves_totals(cfs, id, ft);
}

} // verus!
