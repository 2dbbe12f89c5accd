use metric_proxy::counters::CounterType;
use metric_proxy::jobs::{JobDesc, JobProfile};
use metric_proxy::snapshot::CounterSnapshot;
use metric_proxy::trace::TraceState;
use metric_proxy::trace_codec::{read_log, TraceFrame};

fn desc(jobid: &str) -> JobDesc {
    JobDesc {
        jobid: String::from(jobid),
        command: String::from("solver --fast"),
        size: 4,
        nodelist: String::from("n0,n1"),
        partition: String::from("debug"),
        cluster: String::from("front"),
        run_dir: String::from("/work"),
        start_time: 100,
        end_time: 0,
    }
}

fn snap(name: &str, ts: u64, value: i64) -> CounterSnapshot {
    CounterSnapshot {
        name: String::from(name),
        doc: String::from("d"),
        ctype: CounterType::Counter { ts, value },
    }
}

#[test]
fn trace_roundtrip_returns_the_frames_written() {
    let mut t = TraceState::new(&desc("42"), 1_000, 1 << 20);
    let batch1 = vec![snap("hits", 10, 1), snap("bytes", 10, 100)];
    assert!(t.push(&batch1, 2_000, 1_000_000).is_none());
    let batch2 = vec![snap("hits", 20, 2)];
    assert!(t.push(&batch2, 3_000, 1_000_000).is_none());

    let frames = t.read_all().expect("the log parses back");
    // One description, two interning frames, two sample batches.
    assert_eq!(frames.len(), 5);
    match &frames[0] {
        TraceFrame::Desc { ts, desc } => {
            assert_eq!(*ts, 1_000);
            assert_eq!(desc.jobid, "42");
        },
        _ => panic!("first frame must describe the job"),
    }
    match &frames[1] {
        TraceFrame::CounterMetadata { metadata, .. } => {
            assert_eq!(metadata.id, 0);
            assert_eq!(metadata.name, "hits");
        },
        _ => panic!("interning frame expected"),
    }
    match &frames[3] {
        TraceFrame::Counters { ts, counters } => {
            assert_eq!(*ts, 10);
            assert_eq!(counters.len(), 2);
            assert_eq!(counters[0].id, 0);
            assert_eq!(counters[1].id, 1);
        },
        _ => panic!("sample frame expected"),
    }
    // Ids are dense and never reused across batches.
    match &frames[4] {
        TraceFrame::Counters { counters, .. } => {
            assert_eq!(counters.len(), 1);
            assert_eq!(counters[0].id, 0);
        },
        _ => panic!("sample frame expected"),
    }
}

#[test]
fn corrupted_bytes_do_not_parse() {
    let t = TraceState::new(&desc("13"), 5, 1 << 20);
    let mut bytes = t.file.clone();
    bytes.push(7);
    assert!(read_log(&bytes).is_none());
}

#[test]
fn overflowing_push_folds_and_doubles_the_period() {
    // A tiny budget: the second batch pushes the file over it.
    let mut t = TraceState::new(&desc("7"), 1_000, 350);
    assert!(t.push(&vec![snap("io", 10, 4)], 1_100, 1_000_000).is_none());
    let doubled = t.push(&vec![snap("io", 20, 6)], 1_200, 1_000_000);
    assert_eq!(doubled, Some(2_000_000));

    let frames = t.read_all().expect("the folded log parses back");
    // Description, one interning frame, and the two batches folded into one.
    assert_eq!(frames.len(), 3);
    match &frames[2] {
        TraceFrame::Counters { ts, counters } => {
            // Fold preserves the counter total and averages timestamps.
            assert_eq!(*ts, 15);
            assert_eq!(counters.len(), 1);
            assert_eq!(counters[0].id, 0);
            assert_eq!(counters[0].value, CounterType::Counter { ts: 15, value: 10 });
        },
        _ => panic!("folded sample frame expected"),
    }
}

#[test]
fn fold_preserves_gauge_aggregates() {
    let g1 = CounterSnapshot {
        name: String::from("load"),
        doc: String::new(),
        ctype: CounterType::Gauge { min: 2, max: 5, hits: 1, total: 5 },
    };
    let g2 = CounterSnapshot {
        name: String::from("load"),
        doc: String::new(),
        ctype: CounterType::Gauge { min: 1, max: 3, hits: 2, total: 4 },
    };
    let mut t = TraceState::new(&desc("9"), 1_000, 380);
    assert!(t.push(&vec![g1], 1_100, 500_000).is_none());
    let doubled = t.push(&vec![g2], 1_200, 500_000);
    assert_eq!(doubled, Some(1_000_000));
    let frames = t.read_all().unwrap();
    match &frames[2] {
        TraceFrame::Counters { counters, .. } => {
            assert_eq!(
                counters[0].value,
                CounterType::Gauge { min: 1, max: 5, hits: 3, total: 9 }
            );
        },
        _ => panic!("folded sample frame expected"),
    }
}

#[test]
fn subtract_then_merge_reproduces_the_later_profile() {
    let early = JobProfile {
        desc: desc("5"),
        counters: vec![snap("a", 1, 3), snap("b", 1, 10)],
    };
    let mut late = JobProfile {
        desc: desc("5"),
        counters: vec![snap("a", 2, 8), snap("b", 2, 10)],
    };
    let reference = late.clone();
    late.substract(&early).unwrap();
    assert_eq!(late.counters[0].ctype.value(), 5);
    assert_eq!(late.counters[1].ctype.value(), 0);
    late.merge(early).unwrap();
    for (got, want) in late.counters.iter().zip(reference.counters.iter()) {
        assert_eq!(got.ctype.value(), want.ctype.value());
    }
}

#[test]
fn profile_lookup_and_completion_markers() {
    let p = JobProfile {
        desc: desc("5"),
        counters: vec![snap("has_started", 0, 2), snap("has_finished", 0, 2)],
    };
    assert!(p.contains("has_started"));
    assert!(!p.contains("absent"));
    assert!(p.did_complete());
    let q = JobProfile {
        desc: desc("5"),
        counters: vec![snap("has_started", 0, 2), snap("has_finished", 0, 1)],
    };
    assert!(!q.did_complete());
}

#[test]
fn job_descriptions_merge_spans() {
    let mut a = desc("5");
    let mut b = desc("5");
    a.start_time = 50;
    a.end_time = 70;
    b.start_time = 40;
    b.end_time = 90;
    a.merge(b).unwrap();
    assert_eq!(a.start_time, 40);
    assert_eq!(a.end_time, 90);
    let c = desc("6");
    assert!(a.merge(c).is_err());
}

#[test]
fn subtract_variant_mismatch_changes_nothing() {
    let early = JobProfile {
        desc: desc("6"),
        counters: vec![
            snap("a", 1, 3),
            CounterSnapshot {
                name: String::from("b"),
                doc: String::new(),
                ctype: CounterType::Gauge { min: 0, max: 4, hits: 1, total: 4 },
            },
        ],
    };
    let mut late = JobProfile {
        desc: desc("6"),
        counters: vec![snap("a", 2, 8), snap("b", 2, 10)],
    };
    assert!(late.substract(&early).is_err());
    assert_eq!(late.counters.len(), 2);
    assert_eq!(late.counters[0].ctype.value(), 8);
    assert_eq!(late.counters[1].ctype.value(), 10);
}

#[test]
fn fold_never_grows_the_log() {
    let g1 = CounterSnapshot {
        name: String::from("load"),
        doc: String::new(),
        ctype: CounterType::Gauge { min: 2, max: 5, hits: 1, total: 5 },
    };
    let g2 = CounterSnapshot {
        name: String::from("load"),
        doc: String::new(),
        ctype: CounterType::Gauge { min: 1, max: 3, hits: 2, total: 4 },
    };
    let mut t = TraceState::new(&desc("10"), 1_000, 1 << 20);
    assert!(t.push(&vec![g1], 1_100, 500_000).is_none());
    assert!(t.push(&vec![g2], 1_200, 500_000).is_none());
    let before = t.file.len();
    t.fold();
    assert!(t.file.len() <= before);
}
