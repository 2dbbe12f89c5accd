//! The system sampler: host metrics read through the sysinfo crate and
//! shaped into counter snapshots.  Floating-point readings (per-core load,
//! temperatures) are rounded to whole numbers at the boundary.

use vstd::prelude::*;

use crate::counters::CounterType;
use crate::snapshot::{labeled_name, attrs_view, CounterSnapshot};

verus! {

#[verifier::external_type_specification]
#[verifier::external_body]
pub struct ExSystem(sysinfo::System);

#[verifier::external_type_specification]
#[verifier::external_body]
pub struct ExDisks(sysinfo::Disks);

#[verifier::external_type_specification]
#[verifier::external_body]
pub struct ExDisk(sysinfo::Disk);

#[verifier::external_type_specification]
#[verifier::external_body]
pub struct ExNetworks(sysinfo::Networks);

#[verifier::external_type_specification]
#[verifier::external_body]
pub struct ExNetworkData(sysinfo::NetworkData);

/// Relies on sysinfo's `System::new_all`: a handle on the host's state.
#[verifier::external_body]
pub fn sys_new_all() -> sysinfo::System {
    sysinfo::System::new_all()
}

/// Relies on sysinfo's `System::refresh_memory`: re-reads the memory
/// figures.  The machine decides them; nothing is promised.
#[verifier::external_body]
pub fn sys_refresh_memory(sys: &mut sysinfo::System) {
    sys.refresh_memory();
}

/// Relies on sysinfo's `System::total_memory`: bytes of memory installed.
#[verifier::external_body]
pub fn sys_total_memory(sys: &sysinfo::System) -> u64 {
    sys.total_memory()
}

/// Relies on sysinfo's `System::used_memory`: bytes of memory in use.
#[verifier::external_body]
pub fn sys_used_memory(sys: &sysinfo::System) -> u64 {
    sys.used_memory()
}

/// Relies on sysinfo's `System::total_swap`: bytes of swap configured.
#[verifier::external_body]
pub fn sys_total_swap(sys: &sysinfo::System) -> u64 {
    sys.total_swap()
}

/// Relies on sysinfo's `System::used_swap`: bytes of swap in use.
#[verifier::external_body]
pub fn sys_used_swap(sys: &sysinfo::System) -> u64 {
    sys.used_swap()
}

/// Relies on sysinfo's `Disks::new_with_refreshed_list`: the mounted disks.
#[verifier::external_body]
pub fn disks_refreshed() -> sysinfo::Disks {
    sysinfo::Disks::new_with_refreshed_list()
}

/// Relies on sysinfo's `Disks::list` and the `Disk` accessors `name`,
/// `file_system`, `mount_point`, `total_space` and `available_space`: each
/// disk handed out as plain values.  The machine decides them; nothing is
/// promised.
#[verifier::external_body]
pub fn disk_entries(disks: &sysinfo::Disks) -> Vec<(String, String, String, u64, u64)> {
    disks.list().iter().map(
        |d|
            (
                d.name().to_string_lossy().to_string(),
                d.file_system().to_string_lossy().to_string(),
                d.mount_point().to_string_lossy().to_string(),
                d.total_space(),
                d.available_space(),
            ),
    ).collect()
}

/// Relies on sysinfo's `Networks::new_with_refreshed_list`: the network
/// interfaces.
#[verifier::external_body]
pub fn networks_refreshed() -> sysinfo::Networks {
    sysinfo::Networks::new_with_refreshed_list()
}

/// Relies on sysinfo's `Networks` iteration and the `NetworkData` accessors
/// `total_transmitted`, `total_received`, `total_packets_transmitted`,
/// `total_packets_received`, `total_errors_on_transmitted` and
/// `total_errors_on_received`: each interface handed out as plain values.
/// The machine decides them; nothing is promised.
#[verifier::external_body]
pub fn network_entries(nets: &sysinfo::Networks) -> Vec<(String, u64, u64, u64, u64, u64, u64)> {
    nets.iter().map(
        |(name, data)|
            (
                name.to_string(),
                data.total_transmitted(),
                data.total_received(),
                data.total_packets_transmitted(),
                data.total_packets_received(),
                data.total_errors_on_transmitted(),
                data.total_errors_on_received(),
            ),
    ).collect()
}

/// Relies on sysinfo's `NetworkData` accessors `transmitted`, `received`,
/// `packets_transmitted` and `packets_received`: the traffic of each
/// interface since the previous refresh, as plain values.  The machine
/// decides them; nothing is promised.
#[verifier::external_body]
pub fn network_rate_entries(nets: &sysinfo::Networks) -> Vec<(String, u64, u64, u64, u64)> {
    nets.iter().map(
        |(name, data)|
            (
                name.to_string(),
                data.transmitted(),
                data.received(),
                data.packets_transmitted(),
                data.packets_received(),
            ),
    ).collect()
}

/// Relies on sysinfo's `System::refresh_cpu_all`: per-core readings renewed.
#[verifier::external_body]
pub fn sys_refresh_cpu(sys: &mut sysinfo::System) {
    sys.refresh_cpu_all();
}

/// Relies on sysinfo's `Cpu` accessors `name`, `vendor_id`, `brand`,
/// `frequency` (MHz) and `cpu_usage` (percent, rounded to a whole number
/// here).  The machine decides them; nothing is promised.
#[verifier::external_body]
pub fn cpu_entries(sys: &sysinfo::System) -> Vec<(String, String, String, u64, i64)> {
    sys.cpus().iter().map(
        |c|
            (
                c.name().to_string(),
                c.vendor_id().to_string(),
                c.brand().to_string(),
                c.frequency(),
                c.cpu_usage().round() as i64,
            ),
    ).collect()
}

/// Relies on sysinfo's `Components::new_with_refreshed_list` and the
/// `Component` accessors `label`, `temperature` and `critical`: each sensor
/// as its label and its readings in whole degrees.  The machine decides
/// them; nothing is promised.
#[verifier::external_body]
pub fn temperature_entries() -> Vec<(String, Option<i64>, Option<i64>)> {
    sysinfo::Components::new_with_refreshed_list().iter().map(
        |c|
            (
                c.label().to_string(),
                c.temperature().map(|t| t.round() as i64),
                c.critical().map(|t| t.round() as i64),
            ),
    ).collect()
}

/// Relies on sysinfo's `System::name`, `os_version`, `kernel_version` and
/// `host_name`: the host's identity, "unknown" where the machine reports
/// none.  The machine decides them; nothing is promised.
#[verifier::external_body]
pub fn system_identity() -> (String, String, String, String) {
    (
        sysinfo::System::name().unwrap_or("unknown".to_string()),
        sysinfo::System::os_version().unwrap_or("unknown".to_string()),
        sysinfo::System::kernel_version().unwrap_or("unknown".to_string()),
        sysinfo::System::host_name().unwrap_or("unknown".to_string()),
    )
}

/// A one-hit gauge observing `v`.
pub open spec fn spot_gauge(v: i64) -> CounterType {
    CounterType::Gauge { min: 0, max: v, hits: 1, total: v }
}

/// A byte figure as a gauge value, clipped to the signed range.
pub open spec fn as_gauge_value(v: u64) -> i64 {
    crate::util::clip_i64(v as int) as i64
}

/// Clip a byte figure to the signed range a gauge holds.
pub fn to_gauge_value(v: u64) -> (r: i64)
    ensures
        r == as_gauge_value(v),
{
    if v > i64::MAX as u64 {
        i64::MAX
    } else {
        v as i64
    }
}

/// The memory samples of one reading: totals, uses, and the used share in
/// percent, each as a one-hit gauge.
pub fn memory_snapshots(total_mem: u64, used_mem: u64, total_swp: u64, used_swp: u64) -> (r: Vec<
    CounterSnapshot,
>)
    ensures
        r@.len() == 6,
        r@[0].name@ == "proxy_memory_total_bytes"@ && r@[0].ctype == spot_gauge(
            as_gauge_value(total_mem),
        ),
        r@[1].name@ == "proxy_memory_used_bytes"@ && r@[1].ctype == spot_gauge(
            as_gauge_value(used_mem),
        ),
        r@[2].name@ == "proxy_memory_used_percent"@ && r@[2].ctype == spot_gauge(
            if total_mem == 0 {
                0i64
            } else {
                crate::util::clip_i64((used_mem as int * 100) / total_mem as int) as i64
            },
        ),
        r@[3].name@ == "proxy_swap_total_bytes"@ && r@[3].ctype == spot_gauge(
            as_gauge_value(total_swp),
        ),
        r@[4].name@ == "proxy_swap_used_bytes"@ && r@[4].ctype == spot_gauge(
            as_gauge_value(used_swp),
        ),
        r@[5].name@ == "proxy_memory_swap_used_percent"@ && r@[5].ctype == spot_gauge(
            if total_swp == 0 {
                0i64
            } else {
                crate::util::clip_i64((used_swp as int * 100) / total_swp as int) as i64
            },
        ),
{
    let mut ret: Vec<CounterSnapshot> = Vec::new();
    let mem_pct: i64 = if total_mem == 0 {
        0
    } else {
        pct_value(used_mem, total_mem)
    };
    let swp_pct: i64 = if total_swp == 0 {
        0
    } else {
        pct_value(used_swp, total_swp)
    };
    ret.push(gauge_snap("proxy_memory_total_bytes", "Total memory on the system in bytes",
        to_gauge_value(total_mem)));
    ret.push(gauge_snap("proxy_memory_used_bytes", "Used memory on the system in bytes",
        to_gauge_value(used_mem)));
    ret.push(gauge_snap("proxy_memory_used_percent", "Memory usage on the system in percent",
        mem_pct));
    ret.push(gauge_snap("proxy_swap_total_bytes", "Total swap size on the system in bytes",
        to_gauge_value(total_swp)));
    ret.push(gauge_snap("proxy_swap_used_bytes", "Used swap on the system in bytes",
        to_gauge_value(used_swp)));
    ret.push(gauge_snap("proxy_memory_swap_used_percent", "Swap usage on the system in percent",
        swp_pct));
    ret
}

/// The used share in percent, clipped to the signed range.
fn pct_value(used: u64, total: u64) -> (r: i64)
    requires
        total > 0,
    ensures
        r == crate::util::clip_i64((used as int * 100) / total as int),
{
    let p: u128 = (used as u128) * 100 / (total as u128);
    proof {
        assert((used as int * 100) / total as int >= 0) by (nonlinear_arith)
            requires
                total > 0,
                used >= 0,
        ;
    }
    if p > i64::MAX as u128 {
        i64::MAX
    } else {
        p as i64
    }
}

/// One unlabelled one-hit gauge sample.
fn gauge_snap(name: &str, doc: &str, v: i64) -> (r: CounterSnapshot)
    ensures
        r.name@ == name@,
        r.doc@ == doc@,
        r.ctype == spot_gauge(v),
{
    CounterSnapshot {
        name: name.to_owned(),
        doc: doc.to_owned(),
        ctype: CounterType::Gauge { min: 0, max: v, hits: 1, total: v },
    }
}


/// The labels of one disk's samples.
pub open spec fn disk_attrs(name: Seq<char>, fs: Seq<char>, mount: Seq<char>) -> Seq<
    (Seq<char>, Seq<char>),
> {
    seq![("device"@, name), ("fs"@, fs), ("mountpoint"@, mount)]
}

/// The samples of one disk reading: its size, free and used bytes, and the
/// used share in percent, each as a one-hit gauge.
pub fn disk_snapshots(entries: &Vec<(String, String, String, u64, u64)>) -> (r: Vec<
    CounterSnapshot,
>)
    ensures
        r@.len() == 4 * entries@.len(),
        forall|i: int|
            0 <= i < entries@.len() ==> {
                let e = #[trigger] entries@[i];
                let attrs = disk_attrs(e.0@, e.1@, e.2@);
                let total = e.3;
                let avail = e.4;
                let used = crate::util::sat_sub_u64(total as int, avail as int);
                &&& r@[4 * i].name@ == labeled_name("proxy_disk_size_bytes"@, attrs)
                &&& r@[4 * i].ctype == spot_gauge(as_gauge_value(total))
                &&& r@[4 * i + 1].name@ == labeled_name("proxy_disk_free_size_bytes"@, attrs)
                &&& r@[4 * i + 1].ctype == spot_gauge(as_gauge_value(avail))
                &&& r@[4 * i + 2].name@ == labeled_name("proxy_disk_used_size_bytes"@, attrs)
                &&& r@[4 * i + 2].ctype == spot_gauge(as_gauge_value(used as u64))
                &&& r@[4 * i + 3].name@ == labeled_name("proxy_disk_usage_percent"@, attrs)
                &&& r@[4 * i + 3].ctype == spot_gauge(
                    if total == 0 {
                        0i64
                    } else {
                        crate::util::clip_i64((used * 100) / total as int) as i64
                    },
                )
            },
{
    let mut ret: Vec<CounterSnapshot> = Vec::new();
    let n = entries.len();
    let mut i: usize = 0;
    while i < n
        invariant
            n == entries@.len(),
            0 <= i <= n,
            ret@.len() == 4 * i,
            forall|j: int|
                0 <= j < i ==> {
                    let e = #[trigger] entries@[j];
                    let attrs = disk_attrs(e.0@, e.1@, e.2@);
                    let total = e.3;
                    let avail = e.4;
                    let used = crate::util::sat_sub_u64(total as int, avail as int);
                    &&& ret@[4 * j].name@ == labeled_name("proxy_disk_size_bytes"@, attrs)
                    &&& ret@[4 * j].ctype == spot_gauge(as_gauge_value(total))
                    &&& ret@[4 * j + 1].name@ == labeled_name("proxy_disk_free_size_bytes"@, attrs)
                    &&& ret@[4 * j + 1].ctype == spot_gauge(as_gauge_value(avail))
                    &&& ret@[4 * j + 2].name@ == labeled_name("proxy_disk_used_size_bytes"@, attrs)
                    &&& ret@[4 * j + 2].ctype == spot_gauge(as_gauge_value(used as u64))
                    &&& ret@[4 * j + 3].name@ == labeled_name("proxy_disk_usage_percent"@, attrs)
                    &&& ret@[4 * j + 3].ctype == spot_gauge(
                        if total == 0 {
                            0i64
                        } else {
                            crate::util::clip_i64((used * 100) / total as int) as i64
                        },
                    )
                },
        decreases n - i,
    {
        let e = &entries[i];
        let mut attrs: Vec<(String, String)> = Vec::new();
        attrs.push((str_of("device"), e.0.clone()));
        attrs.push((str_of("fs"), e.1.clone()));
        attrs.push((str_of("mountpoint"), e.2.clone()));
        proof {
            assert(attrs_view(attrs@) =~= disk_attrs(
                entries@[i as int].0@,
                entries@[i as int].1@,
                entries@[i as int].2@,
            ));
        }
        let total = e.3;
        let avail = e.4;
        let used = crate::util::sub_sat_u64(total, avail);
        let pct: i64 = if total == 0 {
            0
        } else {
            pct_value(used, total)
        };
        ret.push(CounterSnapshot::new(
            str_of("proxy_disk_size_bytes"),
            attrs.as_slice(),
            str_of("Total size in bytes of the given device"),
            CounterType::Gauge { min: 0, max: to_gauge_value(total), hits: 1, total: to_gauge_value(total) },
        ));
        ret.push(CounterSnapshot::new(
            str_of("proxy_disk_free_size_bytes"),
            attrs.as_slice(),
            str_of("Total remaining size in bytes of the given device"),
            CounterType::Gauge { min: 0, max: to_gauge_value(avail), hits: 1, total: to_gauge_value(avail) },
        ));
        ret.push(CounterSnapshot::new(
            str_of("proxy_disk_used_size_bytes"),
            attrs.as_slice(),
            str_of("Total used size in bytes of the given device"),
            CounterType::Gauge { min: 0, max: to_gauge_value(used), hits: 1, total: to_gauge_value(used) },
        ));
        ret.push(CounterSnapshot::new(
            str_of("proxy_disk_usage_percent"),
            attrs.as_slice(),
            str_of("Total used percentage of the given device"),
            CounterType::Gauge { min: 0, max: pct, hits: 1, total: pct },
        ));
        i = i + 1;
    }
    ret
}

/// The labels of one interface's samples.
pub open spec fn net_attrs(name: Seq<char>) -> Seq<(Seq<char>, Seq<char>)> {
    seq![("interface"@, name)]
}

/// The samples of one interface reading: running totals of bytes, packets
/// and errors in both directions, as counters stamped with the clock.
pub fn network_snapshots(
    entries: &Vec<(String, u64, u64, u64, u64, u64, u64)>,
    now_s: u64,
) -> (r: Vec<CounterSnapshot>)
    ensures
        r@.len() == 6 * entries@.len(),
        forall|i: int|
            0 <= i < entries@.len() ==> {
                let e = #[trigger] entries@[i];
                let attrs = net_attrs(e.0@);
                &&& r@[6 * i].name@ == labeled_name("proxy_network_transmit_bytes_total"@, attrs)
                &&& r@[6 * i].ctype == (CounterType::Counter { ts: now_s, value: as_gauge_value(e.1) })
                &&& r@[6 * i + 1].name@ == labeled_name("proxy_network_receive_bytes_total"@, attrs)
                &&& r@[6 * i + 1].ctype == (CounterType::Counter { ts: now_s, value: as_gauge_value(e.2) })
                &&& r@[6 * i + 2].name@ == labeled_name(
                    "proxy_network_transmit_packets_total"@,
                    attrs,
                )
                &&& r@[6 * i + 2].ctype == (CounterType::Counter { ts: now_s, value: as_gauge_value(e.3) })
                &&& r@[6 * i + 3].name@ == labeled_name(
                    "proxy_network_receive_packets_total"@,
                    attrs,
                )
                &&& r@[6 * i + 3].ctype == (CounterType::Counter { ts: now_s, value: as_gauge_value(e.4) })
                &&& r@[6 * i + 4].name@ == labeled_name(
                    "proxy_network_transmit_packets_error_total"@,
                    attrs,
                )
                &&& r@[6 * i + 4].ctype == (CounterType::Counter { ts: now_s, value: as_gauge_value(e.5) })
                &&& r@[6 * i + 5].name@ == labeled_name(
                    "proxy_network_receive_packets_error_total"@,
                    attrs,
                )
                &&& r@[6 * i + 5].ctype == (CounterType::Counter { ts: now_s, value: as_gauge_value(e.6) })
            },
{
    let mut ret: Vec<CounterSnapshot> = Vec::new();
    let n = entries.len();
    let mut i: usize = 0;
    while i < n
        invariant
            n == entries@.len(),
            0 <= i <= n,
            ret@.len() == 6 * i,
            forall|j: int|
                0 <= j < i ==> {
                    let e = #[trigger] entries@[j];
                    let attrs = net_attrs(e.0@);
                    &&& ret@[6 * j].name@ == labeled_name(
                        "proxy_network_transmit_bytes_total"@,
                        attrs,
                    )
                    &&& ret@[6 * j].ctype == (CounterType::Counter {
                        ts: now_s,
                        value: as_gauge_value(e.1),
                    })
                    &&& ret@[6 * j + 1].name@ == labeled_name(
                        "proxy_network_receive_bytes_total"@,
                        attrs,
                    )
                    &&& ret@[6 * j + 1].ctype == (CounterType::Counter {
                        ts: now_s,
                        value: as_gauge_value(e.2),
                    })
                    &&& ret@[6 * j + 2].name@ == labeled_name(
                        "proxy_network_transmit_packets_total"@,
                        attrs,
                    )
                    &&& ret@[6 * j + 2].ctype == (CounterType::Counter {
                        ts: now_s,
                        value: as_gauge_value(e.3),
                    })
                    &&& ret@[6 * j + 3].name@ == labeled_name(
                        "proxy_network_receive_packets_total"@,
                        attrs,
                    )
                    &&& ret@[6 * j + 3].ctype == (CounterType::Counter {
                        ts: now_s,
                        value: as_gauge_value(e.4),
                    })
                    &&& ret@[6 * j + 4].name@ == labeled_name(
                        "proxy_network_transmit_packets_error_total"@,
                        attrs,
                    )
                    &&& ret@[6 * j + 4].ctype == (CounterType::Counter {
                        ts: now_s,
                        value: as_gauge_value(e.5),
                    })
                    &&& ret@[6 * j + 5].name@ == labeled_name(
                        "proxy_network_receive_packets_error_total"@,
                        attrs,
                    )
                    &&& ret@[6 * j + 5].ctype == (CounterType::Counter {
                        ts: now_s,
                        value: as_gauge_value(e.6),
                    })
                },
        decreases n - i,
    {
        let e = &entries[i];
        let mut attrs: Vec<(String, String)> = Vec::new();
        attrs.push((str_of("interface"), e.0.clone()));
        proof {
            assert(attrs_view(attrs@) =~= net_attrs(entries@[i as int].0@));
        }
        ret.push(CounterSnapshot::new(
            str_of("proxy_network_transmit_bytes_total"),
            attrs.as_slice(),
            str_of("Total number of bytes sent on the given device"),
            CounterType::Counter { ts: now_s, value: to_gauge_value(e.1) },
        ));
        ret.push(CounterSnapshot::new(
            str_of("proxy_network_receive_bytes_total"),
            attrs.as_slice(),
            str_of("Total number of bytes received on the given device"),
            CounterType::Counter { ts: now_s, value: to_gauge_value(e.2) },
        ));
        ret.push(CounterSnapshot::new(
            str_of("proxy_network_transmit_packets_total"),
            attrs.as_slice(),
            str_of("Total number of packets sent on the given device"),
            CounterType::Counter { ts: now_s, value: to_gauge_value(e.3) },
        ));
        ret.push(CounterSnapshot::new(
            str_of("proxy_network_receive_packets_total"),
            attrs.as_slice(),
            str_of("Total number of packets received on the given device"),
            CounterType::Counter { ts: now_s, value: to_gauge_value(e.4) },
        ));
        ret.push(CounterSnapshot::new(
            str_of("proxy_network_transmit_packets_error_total"),
            attrs.as_slice(),
            str_of("Total number of erroneous packets sent on the given device"),
            CounterType::Counter { ts: now_s, value: to_gauge_value(e.5) },
        ));
        ret.push(CounterSnapshot::new(
            str_of("proxy_network_receive_packets_error_total"),
            attrs.as_slice(),
            str_of("Total number of erroneous packets received on the given device"),
            CounterType::Counter { ts: now_s, value: to_gauge_value(e.6) },
        ));
        i = i + 1;
    }
    ret
}

/// The labels of one interface's samples.
pub open spec fn cpu_attrs(name: Seq<char>, vendor: Seq<char>, model: Seq<char>) -> Seq<
    (Seq<char>, Seq<char>),
> {
    seq![("name"@, name), ("vendor"@, vendor), ("model"@, model)]
}

/// The saturating sum of the first `k` per-core load figures.
pub open spec fn usage_sum(entries: Seq<(String, String, String, u64, i64)>, k: int) -> int
    decreases k,
{
    if k <= 0 {
        0
    } else {
        crate::util::sat_add_i64(usage_sum(entries, k - 1), entries[k - 1].4 as int)
    }
}

/// The samples of one processor reading: per core its frequency and its
/// load, then the core count and the mean load over all cores, each as a
/// one-hit gauge.
pub fn cpu_snapshots(entries: &Vec<(String, String, String, u64, i64)>) -> (r: Vec<
    CounterSnapshot,
>)
    ensures
        r@.len() == 2 * entries@.len() + 2,
        forall|i: int|
            0 <= i < entries@.len() ==> {
                let e = #[trigger] entries@[i];
                let attrs = cpu_attrs(e.0@, e.1@, e.2@);
                &&& r@[2 * i].name@ == labeled_name("proxy_cpu_frequency_ghz"@, attrs)
                &&& r@[2 * i].ctype == spot_gauge(as_gauge_value(e.3))
                &&& r@[2 * i + 1].name@ == labeled_name("proxy_cpu_usage_percent"@, attrs)
                &&& r@[2 * i + 1].ctype == spot_gauge(e.4)
            },
        r@[2 * entries@.len() as int].name@ == "proxy_cpu_total"@,
        r@[2 * entries@.len() as int].ctype == spot_gauge(
            crate::util::clip_i64(entries@.len() as int) as i64,
        ),
        r@[2 * entries@.len() as int + 1].name@ == "proxy_cpu_load_average_percent"@,
        r@[2 * entries@.len() as int + 1].ctype == spot_gauge(
            (if entries@.len() == 0 || usage_sum(entries@, entries@.len() as int) < 0 {
                0int
            } else {
                usage_sum(entries@, entries@.len() as int) / crate::util::clip_i64(
                    entries@.len() as int,
                )
            }) as i64,
        ),
{
    let mut ret: Vec<CounterSnapshot> = Vec::new();
    let n = entries.len();
    let mut total_load: i64 = 0;
    let mut i: usize = 0;
    while i < n
        invariant
            n == entries@.len(),
            0 <= i <= n,
            ret@.len() == 2 * i,
            total_load as int == usage_sum(entries@, i as int),
            forall|j: int|
                0 <= j < i ==> {
                    let e = #[trigger] entries@[j];
                    let attrs = cpu_attrs(e.0@, e.1@, e.2@);
                    &&& ret@[2 * j].name@ == labeled_name("proxy_cpu_frequency_ghz"@, attrs)
                    &&& ret@[2 * j].ctype == spot_gauge(as_gauge_value(e.3))
                    &&& ret@[2 * j + 1].name@ == labeled_name("proxy_cpu_usage_percent"@, attrs)
                    &&& ret@[2 * j + 1].ctype == spot_gauge(e.4)
                },
        decreases n - i,
    {
        let e = &entries[i];
        let mut attrs: Vec<(String, String)> = Vec::new();
        attrs.push((str_of("name"), e.0.clone()));
        attrs.push((str_of("vendor"), e.1.clone()));
        attrs.push((str_of("model"), e.2.clone()));
        proof {
            assert(attrs_view(attrs@) =~= cpu_attrs(
                entries@[i as int].0@,
                entries@[i as int].1@,
                entries@[i as int].2@,
            ));
        }
        let freq = to_gauge_value(e.3);
        ret.push(CounterSnapshot::new(
            str_of("proxy_cpu_frequency_ghz"),
            attrs.as_slice(),
            str_of("Current frequency of the given CPU"),
            CounterType::Gauge { min: 0, max: freq, hits: 1, total: freq },
        ));
        ret.push(CounterSnapshot::new(
            str_of("proxy_cpu_usage_percent"),
            attrs.as_slice(),
            str_of("Current load in percent of the given CPU"),
            CounterType::Gauge { min: 0, max: e.4, hits: 1, total: e.4 },
        ));
        total_load = crate::util::add_sat_i64(total_load, e.4);
        i = i + 1;
    }
    let count = if (n as u64) > (i64::MAX as u64) {
        i64::MAX
    } else {
        n as i64
    };
    let noattrs: Vec<(String, String)> = Vec::new();
    proof {
        assert(count as int == crate::util::clip_i64(n as int));
        assert(attrs_view(noattrs@) =~= Seq::<(Seq<char>, Seq<char>)>::empty());
    }
    ret.push(CounterSnapshot::new(
        str_of("proxy_cpu_total"),
        noattrs.as_slice(),
        str_of("Number of tracked CPUs by individual proxies"),
        CounterType::Gauge { min: 0, max: count, hits: 1, total: count },
    ));
    let avg: i64 = if n == 0 || total_load < 0 {
        0
    } else {
        total_load / count
    };
    ret.push(CounterSnapshot::new(
        str_of("proxy_cpu_load_average_percent"),
        noattrs.as_slice(),
        str_of("Average load on all the CPUs"),
        CounterType::Gauge { min: 0, max: avg, hits: 1, total: avg },
    ));
    ret
}

/// The labels of one sensor's samples.
pub open spec fn temp_attrs(label: Seq<char>) -> Seq<(Seq<char>, Seq<char>)> {
    seq![("component"@, label)]
}

/// The samples of one sensor reading: the temperature where the sensor
/// reports one, and where a critical threshold is known, the threshold and
/// whether the reading reached it, each as a one-hit gauge.
pub fn temperature_snapshots(label: &String, temp: Option<i64>, critical: Option<i64>) -> (r: Vec<
    CounterSnapshot,
>)
    ensures
        ({
            let attrs = temp_attrs(label@);
            match (temp, critical) {
                (Option::None, Option::None) => r@.len() == 0,
                (Option::Some(t), Option::None) => r@.len() == 1 && r@[0].name@ == labeled_name(
                    "proxy_component_temperature_celcius"@,
                    attrs,
                ) && r@[0].ctype == spot_gauge(t),
                (Option::None, Option::Some(c)) => r@.len() == 1 && r@[0].name@ == labeled_name(
                    "proxy_component_critical_temperature_celcius"@,
                    attrs,
                ) && r@[0].ctype == spot_gauge(c),
                (Option::Some(t), Option::Some(c)) => r@.len() == 3 && r@[0].name@
                    == labeled_name("proxy_component_temperature_celcius"@, attrs) && r@[0].ctype
                    == spot_gauge(t) && r@[1].name@ == labeled_name(
                    "proxy_component_critical_temperature_celcius"@,
                    attrs,
                ) && r@[1].ctype == spot_gauge(c) && r@[2].name@ == labeled_name(
                    "proxy_component_critical_temperature"@,
                    attrs,
                ) && r@[2].ctype == spot_gauge(
                    if t >= c {
                        1i64
                    } else {
                        0i64
                    },
                ),
            }
        }),
{
    let mut ret: Vec<CounterSnapshot> = Vec::new();
    let mut attrs: Vec<(String, String)> = Vec::new();
    attrs.push((str_of("component"), label.clone()));
    proof {
        assert(attrs_view(attrs@) =~= temp_attrs(label@));
    }
    if let Some(t) = temp {
        ret.push(CounterSnapshot::new(
            str_of("proxy_component_temperature_celcius"),
            attrs.as_slice(),
            str_of("Current temperature in celcius for the given component"),
            CounterType::Gauge { min: 0, max: t, hits: 1, total: t },
        ));
    }
    if let Some(c) = critical {
        ret.push(CounterSnapshot::new(
            str_of("proxy_component_critical_temperature_celcius"),
            attrs.as_slice(),
            str_of("Critical temperature in celcius for the given component"),
            CounterType::Gauge { min: 0, max: c, hits: 1, total: c },
        ));
        if let Some(t) = temp {
            let reached: i64 = if t >= c {
                1
            } else {
                0
            };
            ret.push(CounterSnapshot::new(
                str_of("proxy_component_critical_temperature"),
                attrs.as_slice(),
                str_of("A boolean indicating if the component reached a critical temperature"),
                CounterType::Gauge { min: 0, max: reached, hits: 1, total: reached },
            ));
        }
    }
    ret
}

/// The per-interval samples of one interface reading: bandwidth and packet
/// rates in both directions over the elapsed seconds, each as a one-hit
/// gauge.
pub fn network_rate_snapshots(
    entries: &Vec<(String, u64, u64, u64, u64)>,
    elapsed_s: u64,
) -> (r: Vec<CounterSnapshot>)
    requires
        elapsed_s > 0,
    ensures
        r@.len() == 4 * entries@.len(),
        forall|i: int|
            0 <= i < entries@.len() ==> {
                let e = #[trigger] entries@[i];
                let attrs = net_attrs(e.0@);
                &&& r@[4 * i].name@ == labeled_name(
                    "proxy_network_transmit_bandwidth_bytes"@,
                    attrs,
                )
                &&& r@[4 * i].ctype == spot_gauge(as_gauge_value(e.1 / elapsed_s))
                &&& r@[4 * i + 1].name@ == labeled_name(
                    "proxy_network_receive_bandwidth_bytes"@,
                    attrs,
                )
                &&& r@[4 * i + 1].ctype == spot_gauge(as_gauge_value(e.2 / elapsed_s))
                &&& r@[4 * i + 2].name@ == labeled_name(
                    "proxy_network_transmit_packet_rate"@,
                    attrs,
                )
                &&& r@[4 * i + 2].ctype == spot_gauge(as_gauge_value(e.3 / elapsed_s))
                &&& r@[4 * i + 3].name@ == labeled_name(
                    "proxy_network_receive_packet_rate"@,
                    attrs,
                )
                &&& r@[4 * i + 3].ctype == spot_gauge(as_gauge_value(e.4 / elapsed_s))
            },
{
    let mut ret: Vec<CounterSnapshot> = Vec::new();
    let n = entries.len();
    let mut i: usize = 0;
    while i < n
        invariant
            elapsed_s > 0,
            n == entries@.len(),
            0 <= i <= n,
            ret@.len() == 4 * i,
            forall|j: int|
                0 <= j < i ==> {
                    let e = #[trigger] entries@[j];
                    let attrs = net_attrs(e.0@);
                    &&& ret@[4 * j].name@ == labeled_name(
                        "proxy_network_transmit_bandwidth_bytes"@,
                        attrs,
                    )
                    &&& ret@[4 * j].ctype == spot_gauge(as_gauge_value(e.1 / elapsed_s))
                    &&& ret@[4 * j + 1].name@ == labeled_name(
                        "proxy_network_receive_bandwidth_bytes"@,
                        attrs,
                    )
                    &&& ret@[4 * j + 1].ctype == spot_gauge(as_gauge_value(e.2 / elapsed_s))
                    &&& ret@[4 * j + 2].name@ == labeled_name(
                        "proxy_network_transmit_packet_rate"@,
                        attrs,
                    )
                    &&& ret@[4 * j + 2].ctype == spot_gauge(as_gauge_value(e.3 / elapsed_s))
                    &&& ret@[4 * j + 3].name@ == labeled_name(
                        "proxy_network_receive_packet_rate"@,
                        attrs,
                    )
                    &&& ret@[4 * j + 3].ctype == spot_gauge(as_gauge_value(e.4 / elapsed_s))
                },
        decreases n - i,
    {
        let e = &entries[i];
        let mut attrs: Vec<(String, String)> = Vec::new();
        attrs.push((str_of("interface"), e.0.clone()));
        proof {
            assert(attrs_view(attrs@) =~= net_attrs(entries@[i as int].0@));
        }
        let tx = to_gauge_value(e.1 / elapsed_s);
        ret.push(CounterSnapshot::new(
            str_of("proxy_network_transmit_bandwidth_bytes"),
            attrs.as_slice(),
            str_of("Outgoing Bandwidth during the refresh interval on the given device"),
            CounterType::Gauge { min: 0, max: tx, hits: 1, total: tx },
        ));
        let rx = to_gauge_value(e.2 / elapsed_s);
        ret.push(CounterSnapshot::new(
            str_of("proxy_network_receive_bandwidth_bytes"),
            attrs.as_slice(),
            str_of("Incoming Bandwidth during the refresh interval on the given device"),
            CounterType::Gauge { min: 0, max: rx, hits: 1, total: rx },
        ));
        let ptx = to_gauge_value(e.3 / elapsed_s);
        ret.push(CounterSnapshot::new(
            str_of("proxy_network_transmit_packet_rate"),
            attrs.as_slice(),
            str_of("Outgoing packet rate during the refresh interval on the given device"),
            CounterType::Gauge { min: 0, max: ptx, hits: 1, total: ptx },
        ));
        let prx = to_gauge_value(e.4 / elapsed_s);
        ret.push(CounterSnapshot::new(
            str_of("proxy_network_receive_packet_rate"),
            attrs.as_slice(),
            str_of("Incoming packet rate during the refresh interval on the given device"),
            CounterType::Gauge { min: 0, max: prx, hits: 1, total: prx },
        ));
        i = i + 1;
    }
    ret
}

/// The labels of the scrape-information sample.
pub open spec fn info_attrs(
    os: Seq<char>,
    osversion: Seq<char>,
    kernel: Seq<char>,
    hostname: Seq<char>,
) -> Seq<(Seq<char>, Seq<char>)> {
    seq![("os"@, os), ("osversion"@, osversion), ("kernel"@, kernel), ("hostname"@, hostname)]
}

/// One scrape counted against the host's identity.
pub fn scrape_info_snapshot(
    os: &String,
    osversion: &String,
    kernel: &String,
    hostname: &String,
    now_s: u64,
) -> (r: CounterSnapshot)
    ensures
        r.name@ == labeled_name(
            "proxy_scrape_total"@,
            info_attrs(os@, osversion@, kernel@, hostname@),
        ),
        r.ctype == (CounterType::Counter { ts: now_s, value: 1i64 }),
{
    let mut attrs: Vec<(String, String)> = Vec::new();
    attrs.push((str_of("os"), os.clone()));
    attrs.push((str_of("osversion"), osversion.clone()));
    attrs.push((str_of("kernel"), kernel.clone()));
    attrs.push((str_of("hostname"), hostname.clone()));
    proof {
        assert(attrs_view(attrs@) =~= info_attrs(os@, osversion@, kernel@, hostname@));
    }
    CounterSnapshot::new(
        str_of("proxy_scrape_total"),
        attrs.as_slice(),
        str_of("Number of scrapes for proxy instance"),
        CounterType::Counter { ts: now_s, value: 1 },
    )
}

/// An owned copy of a literal.
fn str_of(s: &str) -> (r: String)
    ensures
        r@ == s@,
{
    s.to_owned()
}

/// The memory family of one reading.
pub open spec fn mem_shape(
    r: Seq<CounterSnapshot>,
    total_mem: u64,
    used_mem: u64,
    total_swp: u64,
    used_swp: u64,
) -> bool {
    &&& r.len() == 6
    &&& r[0].name@ == "proxy_memory_total_bytes"@ && r[0].ctype == spot_gauge(
        as_gauge_value(total_mem),
    )
    &&& r[1].name@ == "proxy_memory_used_bytes"@ && r[1].ctype == spot_gauge(
        as_gauge_value(used_mem),
    )
    &&& r[2].name@ == "proxy_memory_used_percent"@ && r[2].ctype == spot_gauge(
        if total_mem == 0 {
            0i64
        } else {
            crate::util::clip_i64((used_mem as int * 100) / total_mem as int) as i64
        },
    )
    &&& r[3].name@ == "proxy_swap_total_bytes"@ && r[3].ctype == spot_gauge(
        as_gauge_value(total_swp),
    )
    &&& r[4].name@ == "proxy_swap_used_bytes"@ && r[4].ctype == spot_gauge(
        as_gauge_value(used_swp),
    )
    &&& r[5].name@ == "proxy_memory_swap_used_percent"@ && r[5].ctype == spot_gauge(
        if total_swp == 0 {
            0i64
        } else {
            crate::util::clip_i64((used_swp as int * 100) / total_swp as int) as i64
        },
    )
}

/// The disk family of one reading.
pub open spec fn disk_shape(
    r: Seq<CounterSnapshot>,
    entries: Seq<(String, String, String, u64, u64)>,
) -> bool {
    &&& r.len() == 4 * entries.len()
    &&& (forall|i: int|
        0 <= i < entries.len() ==> {
            let e = #[trigger] entries[i];
            let attrs = disk_attrs(e.0@, e.1@, e.2@);
            let total = e.3;
            let avail = e.4;
            let used = crate::util::sat_sub_u64(total as int, avail as int);
            &&& r[4 * i].name@ == labeled_name("proxy_disk_size_bytes"@, attrs)
            &&& r[4 * i].ctype == spot_gauge(as_gauge_value(total))
            &&& r[4 * i + 1].name@ == labeled_name("proxy_disk_free_size_bytes"@, attrs)
            &&& r[4 * i + 1].ctype == spot_gauge(as_gauge_value(avail))
            &&& r[4 * i + 2].name@ == labeled_name("proxy_disk_used_size_bytes"@, attrs)
            &&& r[4 * i + 2].ctype == spot_gauge(as_gauge_value(used as u64))
            &&& r[4 * i + 3].name@ == labeled_name("proxy_disk_usage_percent"@, attrs)
            &&& r[4 * i + 3].ctype == spot_gauge(
                if total == 0 {
                    0i64
                } else {
                    crate::util::clip_i64((used * 100) / total as int) as i64
                },
            )
        })
}

/// The interface running-total family of one reading.
pub open spec fn net_shape(
    r: Seq<CounterSnapshot>,
    entries: Seq<(String, u64, u64, u64, u64, u64, u64)>,
    now_s: u64,
) -> bool {
    &&& r.len() == 6 * entries.len()
    &&& (forall|i: int|
        0 <= i < entries.len() ==> {
            let e = #[trigger] entries[i];
            let attrs = net_attrs(e.0@);
            &&& r[6 * i].name@ == labeled_name("proxy_network_transmit_bytes_total"@, attrs)
            &&& r[6 * i].ctype == (CounterType::Counter { ts: now_s, value: as_gauge_value(e.1) })
            &&& r[6 * i + 1].name@ == labeled_name("proxy_network_receive_bytes_total"@, attrs)
            &&& r[6 * i + 1].ctype == (CounterType::Counter {
                ts: now_s,
                value: as_gauge_value(e.2),
            })
            &&& r[6 * i + 2].name@ == labeled_name("proxy_network_transmit_packets_total"@, attrs)
            &&& r[6 * i + 2].ctype == (CounterType::Counter {
                ts: now_s,
                value: as_gauge_value(e.3),
            })
            &&& r[6 * i + 3].name@ == labeled_name("proxy_network_receive_packets_total"@, attrs)
            &&& r[6 * i + 3].ctype == (CounterType::Counter {
                ts: now_s,
                value: as_gauge_value(e.4),
            })
            &&& r[6 * i + 4].name@ == labeled_name(
                "proxy_network_transmit_packets_error_total"@,
                attrs,
            )
            &&& r[6 * i + 4].ctype == (CounterType::Counter {
                ts: now_s,
                value: as_gauge_value(e.5),
            })
            &&& r[6 * i + 5].name@ == labeled_name(
                "proxy_network_receive_packets_error_total"@,
                attrs,
            )
            &&& r[6 * i + 5].ctype == (CounterType::Counter {
                ts: now_s,
                value: as_gauge_value(e.6),
            })
        })
}

/// The interface per-interval family of one reading.
pub open spec fn rate_shape(
    r: Seq<CounterSnapshot>,
    entries: Seq<(String, u64, u64, u64, u64)>,
    elapsed_s: u64,
) -> bool {
    &&& elapsed_s > 0
    &&& r.len() == 4 * entries.len()
    &&& (forall|i: int|
        0 <= i < entries.len() ==> {
            let e = #[trigger] entries[i];
            let attrs = net_attrs(e.0@);
            &&& r[4 * i].name@ == labeled_name("proxy_network_transmit_bandwidth_bytes"@, attrs)
            &&& r[4 * i].ctype == spot_gauge(as_gauge_value(e.1 / elapsed_s))
            &&& r[4 * i + 1].name@ == labeled_name("proxy_network_receive_bandwidth_bytes"@, attrs)
            &&& r[4 * i + 1].ctype == spot_gauge(as_gauge_value(e.2 / elapsed_s))
            &&& r[4 * i + 2].name@ == labeled_name("proxy_network_transmit_packet_rate"@, attrs)
            &&& r[4 * i + 2].ctype == spot_gauge(as_gauge_value(e.3 / elapsed_s))
            &&& r[4 * i + 3].name@ == labeled_name("proxy_network_receive_packet_rate"@, attrs)
            &&& r[4 * i + 3].ctype == spot_gauge(as_gauge_value(e.4 / elapsed_s))
        })
}

/// The per-interval family, present exactly when the clock moved.
pub open spec fn rate_cond(
    r: Seq<CounterSnapshot>,
    entries: Seq<(String, u64, u64, u64, u64)>,
    prev_s: u64,
    now_s: u64,
) -> bool {
    if now_s > prev_s {
        rate_shape(r, entries, (now_s - prev_s) as u64)
    } else {
        r.len() == 0
    }
}

/// The sensor family of one sensor's reading.
pub open spec fn temp_shape(
    r: Seq<CounterSnapshot>,
    label: Seq<char>,
    temp: Option<i64>,
    critical: Option<i64>,
) -> bool {
    let attrs = temp_attrs(label);
    match (temp, critical) {
        (Option::None, Option::None) => r.len() == 0,
        (Option::Some(t), Option::None) => r.len() == 1 && r[0].name@ == labeled_name(
            "proxy_component_temperature_celcius"@,
            attrs,
        ) && r[0].ctype == spot_gauge(t),
        (Option::None, Option::Some(c)) => r.len() == 1 && r[0].name@ == labeled_name(
            "proxy_component_critical_temperature_celcius"@,
            attrs,
        ) && r[0].ctype == spot_gauge(c),
        (Option::Some(t), Option::Some(c)) => r.len() == 3 && r[0].name@ == labeled_name(
            "proxy_component_temperature_celcius"@,
            attrs,
        ) && r[0].ctype == spot_gauge(t) && r[1].name@ == labeled_name(
            "proxy_component_critical_temperature_celcius"@,
            attrs,
        ) && r[1].ctype == spot_gauge(c) && r[2].name@ == labeled_name(
            "proxy_component_critical_temperature"@,
            attrs,
        ) && r[2].ctype == spot_gauge(
            if t >= c {
                1i64
            } else {
                0i64
            },
        ),
    }
}

/// The sensor families of a whole reading, one sensor after the other.
pub open spec fn temps_concat(
    r: Seq<CounterSnapshot>,
    entries: Seq<(String, Option<i64>, Option<i64>)>,
) -> bool
    decreases entries.len(),
{
    if entries.len() == 0 {
        r.len() == 0
    } else {
        exists|head: Seq<CounterSnapshot>|
            #[trigger] temp_shape(head, entries[0].0@, entries[0].1, entries[0].2)
                && head.len() <= r.len() && r.take(head.len() as int) == head && temps_concat(
                r.skip(head.len() as int),
                entries.skip(1),
            )
    }
}

/// A sensor chain extends by one more sensor's family at its end.
proof fn lemma_temps_concat_push(
    r: Seq<CounterSnapshot>,
    piece: Seq<CounterSnapshot>,
    entries: Seq<(String, Option<i64>, Option<i64>)>,
    e: (String, Option<i64>, Option<i64>),
)
    requires
        temps_concat(r, entries),
        temp_shape(piece, e.0@, e.1, e.2),
    ensures
        temps_concat(r + piece, entries.push(e)),
    decreases entries.len(),
{
    if entries.len() == 0 {
        assert(r.len() == 0);
        assert(entries.push(e)[0] == e);
        assert((r + piece).take(piece.len() as int) =~= piece);
        assert((r + piece).skip(piece.len() as int) =~= Seq::<CounterSnapshot>::empty());
        assert(entries.push(e).skip(1) =~= Seq::<(String, Option<i64>, Option<i64>)>::empty());
        assert(temp_shape(piece, entries.push(e)[0].0@, entries.push(e)[0].1, entries.push(e)[0].2));
        assert(temps_concat((r + piece).skip(piece.len() as int), entries.push(e).skip(1)));
        assert((r + piece).take(piece.len() as int) == piece);
    } else {
        let head = choose|head: Seq<CounterSnapshot>|
            #[trigger] temp_shape(head, entries[0].0@, entries[0].1, entries[0].2) && head.len()
                <= r.len() && r.take(head.len() as int) == head && temps_concat(
                r.skip(head.len() as int),
                entries.skip(1),
            );
        lemma_temps_concat_push(r.skip(head.len() as int), piece, entries.skip(1), e);
        assert(entries.push(e)[0] == entries[0]);
        assert(entries.push(e).skip(1) =~= entries.skip(1).push(e));
        assert((r + piece).take(head.len() as int) =~= head);
        assert((r + piece).skip(head.len() as int) =~= r.skip(head.len() as int) + piece);
        assert(head.len() <= (r + piece).len());
        assert(temp_shape(head, entries.push(e)[0].0@, entries.push(e)[0].1, entries.push(e)[0].2));
    }
}

/// The scrape-information record of one reading.
pub open spec fn info_shape(
    c: CounterSnapshot,
    os: Seq<char>,
    osversion: Seq<char>,
    kernel: Seq<char>,
    hostname: Seq<char>,
    now_s: u64,
) -> bool {
    &&& c.name@ == labeled_name("proxy_scrape_total"@, info_attrs(os, osversion, kernel, hostname))
    &&& c.ctype == (CounterType::Counter { ts: now_s, value: 1i64 })
}

/// The processor family of one reading.
pub open spec fn cpu_shape(
    r: Seq<CounterSnapshot>,
    entries: Seq<(String, String, String, u64, i64)>,
) -> bool {
    &&& r.len() == 2 * entries.len() + 2
    &&& (forall|i: int|
        0 <= i < entries.len() ==> {
            let e = #[trigger] entries[i];
            let attrs = cpu_attrs(e.0@, e.1@, e.2@);
            &&& r[2 * i].name@ == labeled_name("proxy_cpu_frequency_ghz"@, attrs)
            &&& r[2 * i].ctype == spot_gauge(as_gauge_value(e.3))
            &&& r[2 * i + 1].name@ == labeled_name("proxy_cpu_usage_percent"@, attrs)
            &&& r[2 * i + 1].ctype == spot_gauge(e.4)
        })
    &&& r[2 * entries.len() as int].name@ == "proxy_cpu_total"@
    &&& r[2 * entries.len() as int].ctype == spot_gauge(
        crate::util::clip_i64(entries.len() as int) as i64,
    )
    &&& r[2 * entries.len() as int + 1].name@ == "proxy_cpu_load_average_percent"@
    &&& r[2 * entries.len() as int + 1].ctype == spot_gauge(
        (if entries.len() == 0 || usage_sum(entries, entries.len() as int) < 0 {
            0int
        } else {
            usage_sum(entries, entries.len() as int) / crate::util::clip_i64(entries.len() as int)
        }) as i64,
    )
}

/// One reading shaped whole: the memory, disk, interface-total,
/// interface-rate, sensor and processor families of some read values, in
/// that order, closed by the scrape-information record.
pub open spec fn scrape_shape(r: Seq<CounterSnapshot>, prev_s: u64, now_s: u64) -> bool {
    exists|
        tm: u64,
        um: u64,
        tsw: u64,
        usw: u64,
        des: Seq<(String, String, String, u64, u64)>,
        nes: Seq<(String, u64, u64, u64, u64, u64, u64)>,
        res: Seq<(String, u64, u64, u64, u64)>,
        tes: Seq<(String, Option<i64>, Option<i64>)>,
        ces: Seq<(String, String, String, u64, i64)>,
        ident: (String, String, String, String),
        mem: Seq<CounterSnapshot>,
        dsk: Seq<CounterSnapshot>,
        net: Seq<CounterSnapshot>,
        rts: Seq<CounterSnapshot>,
        tmp: Seq<CounterSnapshot>,
        cp: Seq<CounterSnapshot>,
        info: CounterSnapshot,
    |
        #![trigger mem_shape(mem, tm, um, tsw, usw), disk_shape(dsk, des), net_shape(
            net,
            nes,
            now_s,
        ), rate_cond(rts, res, prev_s, now_s), temps_concat(tmp, tes), cpu_shape(cp, ces), info_shape(
            info,
            ident.0@,
            ident.1@,
            ident.2@,
            ident.3@,
            now_s,
        )]
        r == mem + dsk + net + rts + tmp + cp + seq![info] && mem_shape(mem, tm, um, tsw, usw)
            && disk_shape(dsk, des) && net_shape(net, nes, now_s) && rate_cond(
            rts,
            res,
            prev_s,
            now_s,
        ) && temps_concat(tmp, tes) && cpu_shape(cp, ces) && info_shape(
            info,
            ident.0@,
            ident.1@,
            ident.2@,
            ident.3@,
            now_s,
        )
}

/// The host sampler: a live handle on the machine, read on each tick.
/// Per-core load and temperatures are floating-point readings and stay with
/// unverified callers.
pub struct SystemMetrics {
    pub sys: sysinfo::System,
    pub last_scrape: u64,
}

impl SystemMetrics {
    /// A sampler with a fresh handle on the host.
    pub fn new(now_s: u64) -> (r: SystemMetrics)
        ensures
            r.last_scrape == now_s,
    {
        SystemMetrics { sys: sys_new_all(), last_scrape: now_s }
    }

    /// One reading of the host: memory, disks, interfaces and their rates
    /// over the elapsed interval, sensors, processors and the scrape count,
    /// shaped into snapshots.  What the machine reports decides the values.
    pub fn scrape(&mut self, now_s: u64) -> (r: Vec<CounterSnapshot>)
        ensures
            final(self).last_scrape == now_s,
            // Whatever the machine reported, the result is exactly the
            // sample families of those readings, in order.
            scrape_shape(r@, old(self).last_scrape, now_s),
    {
        sys_refresh_memory(&mut self.sys);
        let tm = sys_total_memory(&self.sys);
        let um = sys_used_memory(&self.sys);
        let tsw = sys_total_swap(&self.sys);
        let usw = sys_used_swap(&self.sys);
        let mut ret = memory_snapshots(tm, um, tsw, usw);
        let ghost gmem = ret@;
        let disks = disks_refreshed();
        let dentries = disk_entries(&disks);
        let mut dsnaps = disk_snapshots(&dentries);
        let ghost gdsk = dsnaps@;
        ret.append(&mut dsnaps);
        let nets = networks_refreshed();
        let nentries = network_entries(&nets);
        let mut nsnaps = network_snapshots(&nentries, now_s);
        let ghost gnet = nsnaps@;
        ret.append(&mut nsnaps);
        let mut rentries: Vec<(String, u64, u64, u64, u64)> = Vec::new();
        let ghost grts = Seq::<CounterSnapshot>::empty();
        let mut grts_v: Ghost<Seq<CounterSnapshot>> = Ghost(grts);
        if now_s > self.last_scrape {
            rentries = network_rate_entries(&nets);
            let mut rsnaps = network_rate_snapshots(&rentries, now_s - self.last_scrape);
            proof {
                grts_v@ = rsnaps@;
            }
            ret.append(&mut rsnaps);
        }
        proof {
            assert(rate_cond(grts_v@, rentries@, old(self).last_scrape, now_s));
            assert(ret@ == gmem + gdsk + gnet + grts_v@);
        }
        let temps = temperature_entries();
        let ghost base = ret@;
        let tn = temps.len();
        let mut ti: usize = 0;
        proof {
            assert(ret@.skip(base.len() as int) =~= Seq::<CounterSnapshot>::empty());
            assert(temps@.take(0) =~= Seq::<(String, Option<i64>, Option<i64>)>::empty());
        }
        while ti < tn
            invariant
                tn == temps@.len(),
                0 <= ti <= tn,
                ret@.len() >= base.len(),
                ret@.take(base.len() as int) == base,
                temps_concat(ret@.skip(base.len() as int), temps@.take(ti as int)),
            decreases tn - ti,
        {
            let ghost acc = ret@.skip(base.len() as int);
            let t = &temps[ti];
            let mut tsnaps = temperature_snapshots(&t.0, t.1, t.2);
            let ghost piece = tsnaps@;
            ret.append(&mut tsnaps);
            proof {
                lemma_temps_concat_push(acc, piece, temps@.take(ti as int), temps@[ti as int]);
                assert(temps@.take(ti + 1 as int) =~= temps@.take(ti as int).push(
                    temps@[ti as int],
                ));
                assert(ret@.skip(base.len() as int) =~= acc + piece);
                assert(ret@.take(base.len() as int) =~= base);
            }
            ti = ti + 1;
        }
        let ghost gtmp = ret@.skip(base.len() as int);
        proof {
            assert(temps@.take(tn as int) =~= temps@);
        }
        sys_refresh_cpu(&mut self.sys);
        let centries = cpu_entries(&self.sys);
        let mut csnaps = cpu_snapshots(&centries);
        let ghost gcpu = csnaps@;
        ret.append(&mut csnaps);
        let identity = system_identity();
        let info = scrape_info_snapshot(&identity.0, &identity.1, &identity.2, &identity.3, now_s);
        let ghost ginfo = info;
        ret.push(info);
        proof {
            assert(ret@ =~= gmem + gdsk + gnet + grts_v@ + gtmp + gcpu + seq![ginfo]);
            assert(mem_shape(gmem, tm, um, tsw, usw));
            assert(disk_shape(gdsk, dentries@));
            assert(net_shape(gnet, nentries@, now_s));
            assert(rate_cond(grts_v@, rentries@, old(self).last_scrape, now_s));
            assert(temps_concat(gtmp, temps@));
            assert(cpu_shape(gcpu, centries@));
            assert(info_shape(
                ginfo,
                identity.0@,
                identity.1@,
                identity.2@,
                identity.3@,
                now_s,
            ));
            assert(scrape_shape(ret@, old(self).last_scrape, now_s));
        }
        self.last_scrape = now_s;
        ret
    }
}

} // verus!
