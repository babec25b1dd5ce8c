use open_task::model::{CoreKind, Integrity, ProcessKey};
use open_task::probe::{
    build_statics, classify_topology, nt_failure, nt_status_message, query_start_len, query_step,
    AlignedBuf, Capabilities, CoreRecord, CoreTimes, ProbeError, QueryStep, StubProbe,
    SystemProcessInformation, WindowsProbe, STATUS_INFO_LENGTH_MISMATCH, STATUS_SUCCESS,
};

fn entry(pid: usize, parent: usize, create: i64, name: &str) -> SystemProcessInformation {
    SystemProcessInformation {
        NextEntryOffset: 0,
        NumberOfThreads: 3,
        CreateTime: create,
        UserTime: 0,
        KernelTime: 0,
        ImageName: name.to_string(),
        UniqueProcessId: pid,
        InheritedFromUniqueProcessId: parent,
        HandleCount: 7,
        WorkingSetSize: 4096,
        PrivatePageCount: 8192,
        ReadTransferCount: 0,
        WriteTransferCount: 0,
    }
}

#[test]
fn statics_name_nameless_processes_by_pid() {
    let s = build_statics(&entry(0, 0, 0, ""), ProcessKey::new(0, 0), &[]);
    assert_eq!(s.name, "System Idle Process");
    let s = build_statics(&entry(4, 0, 0, ""), ProcessKey::new(4, 0), &[]);
    assert_eq!(s.name, "System");
    let s = build_statics(&entry(77, 4, 0, ""), ProcessKey::new(77, 0), &[]);
    assert_eq!(s.name, "<pid 77>");
    let s = build_statics(&entry(77, 4, 0, "app.exe"), ProcessKey::new(77, 0), &[]);
    assert_eq!(s.name, "app.exe");
    assert_eq!(s.integrity, Integrity::Unknown);
    assert_eq!(s.image_path, None);
}

#[test]
fn statics_parent_is_the_live_process_created_no_later() {
    let parent = entry(4, 0, 100, "services.exe");
    let child = entry(77, 4, 150, "a");
    let live = [parent.clone(), child.clone()];
    let s = build_statics(&child, ProcessKey::new(77, 150), &live);
    assert_eq!(s.parent, Some(ProcessKey::new(4, 100)));
    assert_eq!(s.key, ProcessKey::new(77, 150));
    // A process that took over the parent's PID after the child started is a
    // stranger, not the parent.
    let stranger = entry(4, 0, 200, "other.exe");
    let s = build_statics(&child, ProcessKey::new(77, 150), &[stranger, child.clone()]);
    assert_eq!(s.parent, None);
    // An exited parent leaves no parent.
    let s = build_statics(&child, ProcessKey::new(77, 150), &[child.clone()]);
    assert_eq!(s.parent, None);
    // The process is never its own parent.
    let own = entry(77, 77, 150, "a");
    let s = build_statics(&own, ProcessKey::new(77, 150), &[own.clone()]);
    assert_eq!(s.parent, None);
}

#[test]
fn statics_start_time_is_unix_milliseconds() {
    // 2021-01-01T00:00:00Z as a FILETIME.
    let s = build_statics(&entry(1, 0, 132_539_328_000_000_000, "a"), ProcessKey::new(1, 0), &[]);
    assert_eq!(s.started_unix_ms, Some(1_609_459_200_000));
    let s = build_statics(&entry(1, 0, 0, "a"), ProcessKey::new(1, 0), &[]);
    assert_eq!(s.started_unix_ms, None);
    // Before the Unix epoch the division rounds toward zero.
    let s = build_statics(&entry(1, 0, 116_444_735_999_990_001, "a"), ProcessKey::new(1, 0), &[]);
    assert_eq!(s.started_unix_ms, Some(0));
    let s = build_statics(&entry(1, 0, 116_444_735_999_980_000, "a"), ProcessKey::new(1, 0), &[]);
    assert_eq!(s.started_unix_ms, Some(-2));
}

#[test]
fn query_grows_by_doubling_plus_headroom() {
    assert_eq!(query_start_len(0), 262_144);
    assert_eq!(query_start_len(1000), 1000);
    assert_eq!(query_step(STATUS_SUCCESS, 1234, 262_144), QueryStep::Filled(1234));
    assert_eq!(query_step(STATUS_INFO_LENGTH_MISMATCH, 300_000, 262_144), QueryStep::Grow(524_288 + 65_536));
    assert_eq!(query_step(STATUS_INFO_LENGTH_MISMATCH, 600_000, 262_144), QueryStep::Grow(600_000 + 65_536));
    assert_eq!(query_step(-1, 0, 8), QueryStep::Failed);
}

#[test]
fn failed_status_reads_as_hex() {
    assert_eq!(nt_status_message(STATUS_INFO_LENGTH_MISMATCH), "NTSTATUS 0xC0000004");
    assert_eq!(nt_status_message(0x1A2B), "NTSTATUS 0x00001A2B");
    match nt_failure("SystemProcessInformation", -1) {
        ProbeError::Os { context, source } => {
            assert_eq!(context, "SystemProcessInformation");
            assert_eq!(source.to_string(), "NTSTATUS 0xFFFFFFFF");
            assert_eq!(source.kind(), std::io::ErrorKind::Other);
        }
        ProbeError::Unsupported(_) => panic!("expected an OS error"),
    }
}

#[test]
fn aligned_buffer_rounds_up_to_whole_words() {
    let mut b = AlignedBuf::default();
    assert_eq!(b.len_bytes(), 0);
    b.resize_bytes(17);
    assert_eq!(b.len_bytes(), 24);
    b.resize_bytes(8);
    assert_eq!(b.len_bytes(), 8);
}

#[test]
fn stub_probe_reports_unsupported_with_the_platform() {
    assert!(StubProbe::new().is_ok());
    assert_eq!(StubProbe::platform_name("linux"), "linux");
    assert_eq!(StubProbe::platform_name("macos"), "macos");
    assert_eq!(StubProbe::platform_name("freebsd"), "unknown");
    let mut p = StubProbe;
    assert_eq!(p.capabilities(), Capabilities::default());
    match p.sample("linux") {
        Err(ProbeError::Unsupported(name)) => assert_eq!(name, "linux"),
        _ => panic!("the stub never samples"),
    }
}

fn core_rec(mask: u64, class: u8) -> CoreRecord {
    CoreRecord { is_core: true, group: 0, mask, efficiency_class: class }
}

#[test]
fn hybrid_topology_marks_performance_and_efficiency_cores() {
    // Two performance cores with two threads each, then two efficiency cores.
    let recs = [core_rec(0b0011, 1), core_rec(0b1100, 1), core_rec(0b1_0000, 0), core_rec(0b10_0000, 0)];
    let topo = classify_topology(6, &recs);
    assert_eq!(
        topo,
        vec![
            (0, CoreKind::Performance),
            (0, CoreKind::Performance),
            (1, CoreKind::Performance),
            (1, CoreKind::Performance),
            (2, CoreKind::Efficiency),
            (3, CoreKind::Efficiency),
        ]
    );
}

#[test]
fn homogeneous_topology_has_no_kinds_and_unnamed_processors_keep_their_index() {
    let recs = [
        core_rec(0b01, 0),
        CoreRecord { is_core: false, group: 0, mask: 0b10, efficiency_class: 0 },
        CoreRecord { is_core: true, group: 1, mask: 0b10, efficiency_class: 0 },
    ];
    let topo = classify_topology(3, &recs);
    assert_eq!(topo, vec![(0, CoreKind::Unknown), (1, CoreKind::Unknown), (2, CoreKind::Unknown)]);
    assert!(classify_topology(0, &recs).is_empty());
}

#[test]
fn core_loads_need_an_interval() {
    let mut p = WindowsProbe::new(2, vec![(0, CoreKind::Performance), (0, CoreKind::Performance)]);
    assert!(p.capabilities().hybrid_core_kinds);
    let first = p.sample_cores(&[
        CoreTimes { idle: 100, kernel: 200, user: 50 },
        CoreTimes { idle: 10, kernel: 20, user: 5 },
        CoreTimes { idle: 1, kernel: 1, user: 1 },
    ]);
    assert_eq!(first.len(), 2);
    assert_eq!((first[0].busy, first[0].total), (0, 0));
    p.finish_pass();
    let second = p.sample_cores(&[
        CoreTimes { idle: 130, kernel: 260, user: 90 },
        CoreTimes { idle: 10, kernel: 20, user: 5 },
    ]);
    // Kernel time includes idle: total = 60 + 40, busy = 100 - 30.
    assert_eq!((second[0].busy, second[0].total), (70, 100));
    assert_eq!((second[1].busy, second[1].total), (0, 0));
    assert_eq!((second[1].index, second[1].physical, second[1].kind), (1, 0, CoreKind::Performance));
    let third = p.sample_cores(&[CoreTimes { idle: 130, kernel: 260, user: 90 }]);
    assert_eq!(third.len(), 1);
}

#[test]
fn process_deltas_count_from_the_second_sighting() {
    let mut p = WindowsProbe::new(1, vec![]);
    assert!(!p.capabilities().hybrid_core_kinds);
    let mut a = entry(10, 4, 5, "a");
    a.KernelTime = 1000;
    a.UserTime = 500;
    a.ReadTransferCount = 4096;
    let first = p.sample_processes(&[a.clone()], 0);
    assert!(first[0].first_seen);
    assert!(!first[0].counted);
    assert_eq!(first[0].cpu_100ns, 0);
    p.finish_pass();
    a.KernelTime = 3000;
    a.UserTime = 1500;
    a.ReadTransferCount = 5120;
    let b = entry(11, 4, 6, "b");
    let second = p.sample_processes(&[a.clone(), b.clone(), a.clone()], 10_000_000);
    assert_eq!(second[0].key, ProcessKey::new(10, 5));
    assert!(second[0].counted && !second[0].first_seen);
    assert_eq!(second[0].cpu_100ns, 3000);
    assert_eq!(second[0].disk_read, 1024);
    assert!(second[1].first_seen && !second[1].counted);
    // A repeated entry in the same pass is not counted twice.
    assert!(!second[2].counted && !second[2].first_seen);
    // A zero wall time yields no rates.
    let third = p.sample_processes(&[a.clone()], 0);
    assert!(!third[0].counted);
    // Process 11 was absent from the last pass, so it is new again.
    let fourth = p.sample_processes(&[b], 10);
    assert!(fourth[0].first_seen);
}
