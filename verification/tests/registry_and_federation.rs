use metric_proxy::common::{parse_bool, parse_period, parse_u64, unix_ts};
use metric_proxy::counters::CounterType;
use metric_proxy::ingest::{ClientSession, MessageBuffer, ProxyCommand};
use metric_proxy::jobs::{derive_jobid, JobDesc, JobProfile};
use metric_proxy::pivot::{handle_pivot, topo_edges, ClientPivot};
use metric_proxy::registry::ExporterFactory;
use metric_proxy::scrape::{detect_kind, evict_failed, prometheus_entry, ProxyScraper, ScraperType};
use metric_proxy::snapshot::{CounterSnapshot, CounterValue, ValueDesc};
use metric_proxy::pivot::parse_url;
use metric_proxy::squeue::SqueueJobList;
use metric_proxy::store::extrap_filename;
use metric_proxy::system::{disk_snapshots, memory_snapshots, network_snapshots};

fn desc(jobid: &str) -> JobDesc {
    JobDesc {
        jobid: String::from(jobid),
        command: String::from("mpirun app"),
        size: 2,
        nodelist: String::new(),
        partition: String::new(),
        cluster: String::new(),
        run_dir: String::new(),
        start_time: 10,
        end_time: 0,
    }
}

#[test]
fn ingest_session_counts_and_releases() {
    let mut factory = ExporterFactory::new("testhost", true, 1 << 20, 0);
    let mut session = ClientSession::new();
    session.on_command(
        &mut factory,
        ProxyCommand::JobDesc(desc("42")),
        1_000,
    ).unwrap();
    session.on_command(
        &mut factory,
        ProxyCommand::Desc(ValueDesc {
            name: String::from("hits"),
            doc: String::new(),
            ctype: CounterType::newcounter(),
        }),
        1_000,
    ).unwrap();
    for _ in 0..3 {
        session.on_command(
            &mut factory,
            ProxyCommand::Value(CounterValue {
                name: String::from("hits"),
                value: CounterType::Counter { ts: 0, value: 1 },
            }),
            1_000,
        ).unwrap();
    }
    let prof = factory.profile_of("42", true).unwrap();
    assert_eq!(prof.get("hits").unwrap().ctype.value(), 3);

    // The trace recorded at least the description; a sample batch arrives
    // once the trace source is scraped.
    let ti = factory.traces.find("42");
    assert!(ti < factory.traces.traces.len());
    factory.commit_pending_scrapes();
    factory.scrape_trace("42", 2_000, 500_000).unwrap();

    let saved = session.on_disconnect(&mut factory, 99).unwrap();
    let saved = saved.expect("an aggregating proxy persists the profile");
    assert_eq!(saved.get("hits").unwrap().ctype.value(), 3);
    assert!(factory.profile_of("42", true).is_err());
}

#[test]
fn refcount_discipline_releases_on_the_last_reference() {
    let mut factory = ExporterFactory::new("h", true, 1 << 20, 0);
    let d = desc("77");
    for _ in 0..3 {
        factory.resolve_job(&d, false, 0);
    }
    assert!(factory.relax_job(&d).unwrap().is_none());
    assert!(factory.relax_job(&d).unwrap().is_none());
    let last = factory.relax_job(&d).unwrap();
    assert!(last.is_some());
    assert!(factory.relax_job(&d).is_err());
    assert!(factory.profile_of("77", true).is_err());
}

#[test]
fn pinned_jobs_are_never_released() {
    let mut factory = ExporterFactory::new("h", true, 1 << 20, 0);
    let mut main_desc = desc("main");
    main_desc.jobid = String::from("main");
    assert!(factory.relax_job(&main_desc).is_err());
    assert!(factory.profile_of("main", true).is_ok());
}

#[test]
fn fanout_to_aggregates_and_the_declared_job() {
    let mut factory = ExporterFactory::new("h", false, 1 << 20, 0);
    factory.resolve_job(&desc("9"), true, 0);
    factory.push("ops", "operations", CounterType::newcounter(), Some("9")).unwrap();
    factory.accumulate(
        "ops",
        CounterType::Counter { ts: 0, value: 5 },
        Some("9"),
    ).unwrap();
    assert_eq!(factory.profile_of("main", true).unwrap().get("ops").unwrap().ctype.value(), 5);
    assert_eq!(factory.profile_of("9", true).unwrap().get("ops").unwrap().ctype.value(), 5);
}

#[test]
fn alarm_triggers_once_the_threshold_is_passed() {
    let mut factory = ExporterFactory::new("h", false, 1 << 20, 0);
    factory.push("m", "", CounterType::newcounter(), None).unwrap();
    factory.accumulate("m", CounterType::Counter { ts: 0, value: 5 }, None).unwrap();
    factory.add_alarm(
        String::from("hi"),
        "main",
        String::from("m"),
        String::from(">"),
        10,
    ).unwrap();
    let first: usize = factory.check_alarms().iter().map(|(_, v)| v.len()).sum();
    assert_eq!(first, 0);
    factory.accumulate("m", CounterType::Counter { ts: 0, value: 15 }, None).unwrap();
    let all = factory.check_alarms();
    let hits: Vec<_> = all.iter().flat_map(|(_, v)| v.iter()).collect();
    assert_eq!(hits.len(), 1);
    assert_eq!(hits[0].name, "hi");
    assert_eq!(hits[0].metric, "m");
    assert_eq!(hits[0].current, 20);
    assert!(hits[0].active);
}

#[test]
fn proxy_pull_diffs_against_the_cache_and_releases_vanished_jobs() {
    let mut parent = ExporterFactory::new("parent", false, 1 << 20, 0);
    parent.add_scrape(ProxyScraper {
        target_url: String::from("http://child/job"),
        state: Vec::new(),
        period_us: 1_000_000,
        last_scrape: 0,
        ttype: ScraperType::Proxy,
    });
    let idx = parent.scrapes.len() - 1;
    let pull1 = vec![JobProfile {
        desc: desc("j1"),
        counters: vec![CounterSnapshot {
            name: String::from("hits"),
            doc: String::new(),
            ctype: CounterType::Counter { ts: 0, value: 5 },
        }],
    }];
    parent.apply_proxy_scrape(idx, pull1, 0).unwrap();
    assert_eq!(parent.profile_of("j1", true).unwrap().get("hits").unwrap().ctype.value(), 5);

    let pull2 = vec![JobProfile {
        desc: desc("j1"),
        counters: vec![CounterSnapshot {
            name: String::from("hits"),
            doc: String::new(),
            ctype: CounterType::Counter { ts: 0, value: 8 },
        }],
    }];
    parent.apply_proxy_scrape(idx, pull2, 0).unwrap();
    // Remote running counters arrive as increments: 5, then 8 - 5 more.
    assert_eq!(parent.profile_of("j1", true).unwrap().get("hits").unwrap().ctype.value(), 8);

    // The job vanished remotely: the next pull releases it here.
    parent.apply_proxy_scrape(idx, Vec::new(), 0).unwrap();
    assert!(parent.profile_of("j1", true).is_err());
}

#[test]
fn failing_remote_sources_are_evicted_and_internal_ones_kept() {
    let mut scrapes = vec![
        ProxyScraper {
            target_url: String::from("http://peer/job"),
            state: Vec::new(),
            period_us: 1,
            last_scrape: 0,
            ttype: ScraperType::Proxy,
        },
        ProxyScraper {
            target_url: String::from("/system"),
            state: Vec::new(),
            period_us: 1,
            last_scrape: 0,
            ttype: ScraperType::System,
        },
        ProxyScraper::newtrace("42"),
    ];
    let failed = vec![
        String::from("http://peer/job"),
        String::from("/system"),
        String::from("/trace.42"),
    ];
    evict_failed(&mut scrapes, &failed);
    let urls: Vec<&str> = scrapes.iter().map(|s| s.target_url.as_str()).collect();
    assert_eq!(urls, vec!["/system", "/trace.42"]);
}

#[test]
fn scrape_is_due_only_after_its_period() {
    let s = ProxyScraper {
        target_url: String::from("u"),
        state: Vec::new(),
        period_us: 1_000_000,
        last_scrape: 5_000_000,
        ttype: ScraperType::Prometheus,
    };
    assert!(!s.should_scrape(5_500_000));
    assert!(s.should_scrape(6_000_000));
}

#[test]
fn remote_samples_become_local_counters() {
    let c = prometheus_entry(String::from("cnt"), String::new(), true, 7, 99);
    assert_eq!(c.ctype, CounterType::Counter { ts: 99, value: 7 });
    let g = prometheus_entry(String::from("gau"), String::new(), false, 3, 99);
    assert_eq!(g.ctype, CounterType::Gauge { min: 0, max: 0, hits: 1, total: 3 });
    assert_eq!(g.ctype.value(), 3);

    let mut factory = ExporterFactory::new("h", false, 1 << 20, 0);
    factory.ingest_prometheus_samples(&vec![c, g]).unwrap();
    let main = factory.profile_of("main", true).unwrap();
    assert_eq!(main.get("cnt").unwrap().ctype.value(), 7);
    assert_eq!(main.get("gau").unwrap().ctype.value(), 3);
}

#[test]
fn pivot_prefers_the_partially_attached_node() {
    let mut clients = vec![ClientPivot::new(String::from("self"))];
    let first = handle_pivot(&mut clients, String::from("A")).unwrap();
    let second = handle_pivot(&mut clients, String::from("B")).unwrap();
    let third = handle_pivot(&mut clients, String::from("C")).unwrap();
    assert_eq!(first, "self");
    assert_eq!(second, "self");
    assert_eq!(third, "A");
    let edges: Vec<(String, String)> = topo_edges(&clients);
    let expected = vec![
        (String::from("self"), String::from("A")),
        (String::from("self"), String::from("B")),
        (String::from("A"), String::from("C")),
    ];
    assert_eq!(edges, expected);
    assert!(clients.iter().all(|c| c.refcount <= 2));
}

#[test]
fn framing_splits_on_null_bytes_and_keeps_the_tail() {
    let mut buf = MessageBuffer::new();
    let first = buf.split_messages(&vec![b'a', b'b', 0, b'c']);
    assert_eq!(first, vec![vec![b'a', b'b']]);
    let second = buf.split_messages(&vec![b'd', 0, 0, b'e']);
    assert_eq!(second, vec![vec![b'c', b'd'], vec![]]);
    assert_eq!(buf.buffer, vec![b'e']);
}

#[test]
fn jobid_derivation_follows_the_priority_and_strips_ranks() {
    let id = derive_jobid(None, Some(String::from("1234.7")), None, None, None);
    assert_eq!(id, "1234");
    let id = derive_jobid(
        Some(String::from("p1")),
        Some(String::from("ignored")),
        None,
        None,
        Some(String::from("2")),
    );
    assert_eq!(id, "p1-2");
    let id = derive_jobid(None, None, None, None, None);
    assert_eq!(id, "");
}

#[test]
fn small_parsers_behave() {
    assert!(parse_bool("1"));
    assert!(parse_bool("true"));
    assert!(!parse_bool("yes"));
    assert_eq!(parse_u64("90210"), Some(90210));
    assert_eq!(parse_u64(""), None);
    assert_eq!(parse_u64("12x"), None);
    assert_eq!(parse_period("host:1337@7"), (String::from("host:1337"), 7));
    assert_eq!(parse_period("host:1337"), (String::from("host:1337"), 1));
    assert_eq!(parse_period("host@oops"), (String::from("host@oops"), 5));
}

#[test]
fn command_hash_names_the_model_file() {
    // The well-known md5 of "abc" pins the trusted digest down.
    assert_eq!(extrap_filename("abc"), "900150983cd24fb0d6963f7d28e17f72.jsonl");
}

#[test]
fn memory_snapshots_report_shares() {
    let snaps = memory_snapshots(1000, 250, 10, 5);
    assert_eq!(snaps.len(), 6);
    assert_eq!(snaps[0].name, "proxy_memory_total_bytes");
    assert_eq!(snaps[0].ctype.value(), 1000);
    assert_eq!(snaps[2].name, "proxy_memory_used_percent");
    assert_eq!(snaps[2].ctype.value(), 25);
    assert_eq!(snaps[5].ctype.value(), 50);
}

#[test]
fn the_clock_moves_forward() {
    let a = unix_ts();
    assert!(a > 0);
}

#[test]
fn routes_split_into_prefix_and_resource() {
    assert_eq!(parse_url("/"), (String::from("/"), String::new()));
    assert_eq!(parse_url("/metrics"), (String::from("metrics"), String::new()));
    assert_eq!(parse_url("/job/list"), (String::from("job"), String::from("list")));
    assert_eq!(
        parse_url("/profiles/extrap/x"),
        (String::from("profiles/extrap"), String::from("x"))
    );
}

#[test]
fn queue_listing_parses_into_records() {
    let out = "JOBID|COMMENT|STATE
11|solver|R
12|mesher|PD
";
    let list = SqueueJobList::init(out).unwrap();
    assert_eq!(list.jobs.len(), 2);
    assert_eq!(list.job_cmd("11"), Some(String::from("solver")));
    assert_eq!(list.job_cmd("12"), Some(String::from("mesher")));
    assert_eq!(list.job_cmd("13"), None);
    assert!(SqueueJobList::init("").is_err());
}

#[test]
fn disk_and_network_readings_become_labeled_samples() {
    let disks = vec![(
        String::from("sda"),
        String::from("ext4"),
        String::from("/"),
        1000u64,
        400u64,
    )];
    let snaps = disk_snapshots(&disks);
    assert_eq!(snaps.len(), 4);
    assert_eq!(
        snaps[0].name,
        "proxy_disk_size_bytes{device=\"sda\",fs=\"ext4\",mountpoint=\"/\"}"
    );
    assert_eq!(snaps[0].ctype.value(), 1000);
    assert_eq!(snaps[2].ctype.value(), 600);
    assert_eq!(snaps[3].ctype.value(), 60);

    let nets = vec![(String::from("eth0"), 10u64, 20u64, 1u64, 2u64, 0u64, 0u64)];
    let nsnaps = network_snapshots(&nets, 50);
    assert_eq!(nsnaps.len(), 6);
    assert_eq!(nsnaps[0].name, "proxy_network_transmit_bytes_total{interface=\"eth0\"}");
    assert_eq!(nsnaps[0].ctype, CounterType::Counter { ts: 50, value: 10 });
    assert_eq!(nsnaps[1].ctype, CounterType::Counter { ts: 50, value: 20 });
}

#[test]
fn scrape_targets_are_classified_by_their_probes() {
    assert_eq!(
        detect_kind("/system", false, false).unwrap(),
        (String::from("/system"), ScraperType::System)
    );
    assert_eq!(
        detect_kind("peer:1337", true, false).unwrap(),
        (String::from("http://peer:1337/job"), ScraperType::Proxy)
    );
    assert_eq!(
        detect_kind("http://peer:1337", false, true).unwrap(),
        (String::from("http://peer:1337/metrics"), ScraperType::Prometheus)
    );
    assert!(detect_kind("peer:1337", false, false).is_err());
}

#[test]
fn remote_counter_resample_adds_the_observation() {
    let first = prometheus_entry(String::from("cnt"), String::new(), true, 7, 99);
    let second = prometheus_entry(String::from("cnt"), String::new(), true, 9, 100);
    let mut factory = ExporterFactory::new("h", false, 1 << 20, 0);
    factory.ingest_prometheus_samples(&vec![first]).unwrap();
    factory.ingest_prometheus_samples(&vec![second]).unwrap();
    let main = factory.profile_of("main", true).unwrap();
    assert_eq!(main.get("cnt").unwrap().ctype.value(), 16);
}

#[test]
fn aggregator_opens_pinned_traces_at_birth() {
    let factory = ExporterFactory::new("h", true, 1 << 20, 0);
    assert_eq!(factory.traces.traces.len(), 2);
    assert_eq!(factory.traces.traces[0].desc.jobid, "main");
    assert_eq!(factory.pending_scrapes.len(), 2);
    assert_eq!(factory.pending_scrapes[0].target_url, "/FTIO/main");

    let plain = ExporterFactory::new("h", false, 1 << 20, 0);
    assert_eq!(plain.traces.traces.len(), 0);
    assert_eq!(plain.pending_scrapes.len(), 0);
}
