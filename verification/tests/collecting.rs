use memlens::collector::{CollectError, Collector, CollectorInput, NodeEntry, ProcEntry};

fn input(
    meminfo: Option<&[u8]>,
    node_entries: Option<Vec<NodeEntry>>,
    proc_entries: Option<Vec<ProcEntry>>,
) -> CollectorInput {
    CollectorInput { meminfo: meminfo.map(|b| b.to_vec()), node_entries, proc_entries }
}

fn node_entry(name: &[u8], meminfo: Option<&[u8]>) -> NodeEntry {
    NodeEntry { name: name.to_vec(), meminfo: meminfo.map(|b| b.to_vec()) }
}

fn proc_entry(name: &[u8], smaps: Option<&[u8]>, comm: Option<&[u8]>) -> ProcEntry {
    ProcEntry {
        name: name.to_vec(),
        smaps_rollup: smaps.map(|b| b.to_vec()),
        comm: comm.map(|b| b.to_vec()),
    }
}

#[test]
fn unreadable_system_counters_are_fatal() {
    let mut c = Collector::new();
    let r = c.collect(input(None, Some(Vec::new()), Some(Vec::new())));
    assert_eq!(r.unwrap_err(), CollectError::SystemMemoryUnreadable);
}

#[test]
fn unreadable_process_root_is_fatal() {
    let mut c = Collector::new();
    let r = c.collect(input(Some(b"MemTotal: 10 kB\n"), Some(Vec::new()), None));
    assert_eq!(r.unwrap_err(), CollectError::ProcessRootUnreadable);
}

#[test]
fn unreadable_locality_root_is_not_fatal() {
    let mut c = Collector::new();
    let r = c.collect(input(Some(b"MemTotal: 10 kB\n"), None, Some(Vec::new())));
    let snap = r.unwrap();
    assert_eq!(snap.system.total_kb, 10);
    assert!(snap.numa_nodes.is_empty());
    assert!(snap.processes.is_empty());
}

#[test]
fn numa_nodes_come_out_sorted_by_id() {
    let mut c = Collector::new();
    let meminfo: &[u8] = b"Node MemTotal: 1 kB\n";
    let nodes = vec![
        node_entry(b"node2", Some(meminfo)),
        node_entry(b"node0", Some(meminfo)),
        node_entry(b"node1", Some(meminfo)),
    ];
    let r = c.collect(input(Some(b"MemTotal: 10 kB\n"), Some(nodes), Some(Vec::new())));
    let snap = r.unwrap();
    let ids: Vec<u32> = snap.numa_nodes.iter().map(|n| n.node_id).collect();
    assert_eq!(ids, vec![0, 1, 2]);
}

#[test]
fn unreadable_or_foreign_locality_entries_are_skipped() {
    let mut c = Collector::new();
    let nodes = vec![
        node_entry(b"node5", None),
        node_entry(b"cpu0", Some(b"Node 0 MemTotal: 1 kB\n")),
        node_entry(b"node3", Some(b"Node 3 MemTotal: 7 kB\n")),
    ];
    let r = c.collect(input(Some(b"MemTotal: 10 kB\n"), Some(nodes), Some(Vec::new())));
    let snap = r.unwrap();
    assert_eq!(snap.numa_nodes.len(), 1);
    assert_eq!(snap.numa_nodes[0].node_id, 3);
    assert_eq!(snap.numa_nodes[0].mem_total_kb, 7);
}

#[test]
fn processes_are_enumerated_and_unreadable_ones_omitted() {
    let mut c = Collector::new();
    let procs = vec![
        proc_entry(b"1", Some(b"Rss: 100 kB\nPss: 80 kB\n"), Some(b"init\n")),
        proc_entry(b"self", Some(b"Rss: 1 kB\n"), None),
        proc_entry(b"2", None, Some(b"gone\n")),
        proc_entry(b"30", Some(b"Rss: 50 kB\n"), None),
    ];
    let r = c.collect(input(Some(b"MemTotal: 10 kB\n"), Some(Vec::new()), Some(procs)));
    let snap = r.unwrap();
    assert_eq!(snap.processes.len(), 2);
    assert_eq!(snap.processes[0].pid, 1);
    assert_eq!(snap.processes[0].name, b"init".to_vec());
    assert_eq!(snap.processes[0].rss_kb, 100);
    assert_eq!(snap.processes[0].pss_kb, 80);
    assert_eq!(snap.processes[1].pid, 30);
    assert_eq!(snap.processes[1].name, b"[30]".to_vec());
    assert_eq!(snap.processes[1].rss_kb, 50);
}
