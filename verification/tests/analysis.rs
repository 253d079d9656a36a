use memlens::analyzer::{snapshot_within_limits, Analyzer};
use memlens::collector::{MemorySnapshot, NumaNode, ProcessMemory, SystemMemory};

fn system(total: u64, free: u64, available: u64) -> SystemMemory {
    SystemMemory {
        total_kb: total,
        free_kb: free,
        available_kb: available,
        buffers_kb: 0,
        cached_kb: 0,
        swap_total_kb: 0,
        swap_free_kb: 0,
        slab_kb: 0,
        page_tables_kb: 0,
    }
}

fn process(pid: u32, rss: u64, pss: u64) -> ProcessMemory {
    ProcessMemory {
        pid,
        name: format!("[{}]", pid).into_bytes(),
        rss_kb: rss,
        pss_kb: pss,
        shared_clean_kb: 0,
        shared_dirty_kb: 0,
        private_clean_kb: 0,
        private_dirty_kb: 0,
        swap_kb: 0,
    }
}

fn snapshot(processes: Vec<ProcessMemory>, sys: SystemMemory) -> MemorySnapshot {
    MemorySnapshot { processes, system: sys, numa_nodes: Vec::new() }
}

#[test]
fn empty_analyzer_yields_all_zero_state() {
    let mut a = Analyzer::new();
    let s = a.get_state();
    assert!(s.processes.is_empty());
    assert!(s.numa_nodes.is_empty());
    assert_eq!(s.system.total_kb, 0);
    assert_eq!(s.system.used_kb, 0);
    assert_eq!(s.shared_memory.total_shared_kb, 0);
    assert_eq!(s.shared_memory.sharing_efficiency_permille, 0);
    assert_eq!(s.memory_map.kernel_kb, 0);
}

#[test]
fn first_observation_has_delta_zero() {
    let mut a = Analyzer::new();
    a.update(snapshot(vec![process(7, 900, 700)], system(1000, 100, 100)));
    let s = a.get_state();
    assert_eq!(s.processes.len(), 1);
    assert_eq!(s.processes[0].pss_delta_kb, 0);
}

#[test]
fn delta_is_signed_change_across_cycles() {
    let mut a = Analyzer::new();
    a.update(snapshot(vec![process(7, 900, 500)], system(1000, 100, 100)));
    let _ = a.get_state();
    a.update(snapshot(vec![process(7, 900, 700)], system(1000, 100, 100)));
    let s = a.get_state();
    assert_eq!(s.processes[0].pss_delta_kb, 200);
    a.update(snapshot(vec![process(7, 900, 650)], system(1000, 100, 100)));
    let s3 = a.get_state();
    assert_eq!(s3.processes[0].pss_delta_kb, -50);
}

#[test]
fn vanished_process_reappears_as_first_seen() {
    let mut a = Analyzer::new();
    a.update(snapshot(vec![process(7, 900, 500)], system(1000, 100, 100)));
    let _ = a.get_state();
    // The process vanished before the second cycle's enumeration.
    a.update(snapshot(Vec::new(), system(1000, 100, 100)));
    let s2 = a.get_state();
    assert!(s2.processes.is_empty());
    // It reappears in the third cycle: history was replaced wholesale, so it
    // analyzes as first-seen even though its proportional size changed.
    a.update(snapshot(vec![process(7, 900, 800)], system(1000, 100, 100)));
    let s3 = a.get_state();
    assert_eq!(s3.processes[0].pss_delta_kb, 0);
}

#[test]
fn shared_and_private_are_component_sums() {
    let mut a = Analyzer::new();
    let p = ProcessMemory {
        pid: 1,
        name: b"p".to_vec(),
        rss_kb: 1200,
        pss_kb: 1000,
        shared_clean_kb: 300,
        shared_dirty_kb: 100,
        private_clean_kb: 500,
        private_dirty_kb: 250,
        swap_kb: 0,
    };
    a.update(snapshot(vec![p], system(10000, 1000, 1000)));
    let s = a.get_state();
    assert_eq!(s.processes[0].shared_kb, 400);
    assert_eq!(s.processes[0].private_kb, 750);
}

#[test]
fn memory_map_reconciles_to_total() {
    let mut a = Analyzer::new();
    let p = ProcessMemory {
        pid: 1,
        name: b"p".to_vec(),
        rss_kb: 100,
        pss_kb: 100,
        shared_clean_kb: 10,
        shared_dirty_kb: 5,
        private_clean_kb: 40,
        private_dirty_kb: 20,
        swap_kb: 0,
    };
    let sys = SystemMemory {
        total_kb: 1000,
        free_kb: 300,
        available_kb: 500,
        buffers_kb: 50,
        cached_kb: 120,
        swap_total_kb: 0,
        swap_free_kb: 0,
        slab_kb: 30,
        page_tables_kb: 10,
    };
    a.update(snapshot(vec![p], sys));
    let s = a.get_state();
    let m = &s.memory_map;
    assert_eq!(m.process_private_kb, 60);
    assert_eq!(m.process_shared_kb, 15);
    // kernel = 1000 - (60 + 120 + 50 + 300 + 30 + 10) = 430
    assert_eq!(m.kernel_kb, 430);
    assert_eq!(
        m.kernel_kb + m.process_private_kb + m.cache_kb + m.buffers_kb + m.free_kb + m.slab_kb
            + m.page_tables_kb,
        sys.total_kb
    );
}

#[test]
fn memory_map_kernel_clamps_to_zero() {
    let mut a = Analyzer::new();
    let sys = SystemMemory {
        total_kb: 100,
        free_kb: 90,
        available_kb: 90,
        buffers_kb: 40,
        cached_kb: 40,
        swap_total_kb: 0,
        swap_free_kb: 0,
        slab_kb: 0,
        page_tables_kb: 0,
    };
    a.update(snapshot(Vec::new(), sys));
    let s = a.get_state();
    assert_eq!(s.memory_map.kernel_kb, 0);
}

#[test]
fn swap_used_saturates() {
    let mut a = Analyzer::new();
    let mut sys = system(1000, 100, 100);
    sys.swap_total_kb = 800;
    sys.swap_free_kb = 300;
    a.update(snapshot(Vec::new(), sys));
    assert_eq!(a.get_state().system.swap_used_kb, 500);
    let mut sys2 = system(1000, 100, 100);
    sys2.swap_total_kb = 100;
    sys2.swap_free_kb = 300;
    a.update(snapshot(Vec::new(), sys2));
    assert_eq!(a.get_state().system.swap_used_kb, 0);
}

#[test]
fn used_memory_goes_by_availability_estimate() {
    let mut a = Analyzer::new();
    a.update(snapshot(Vec::new(), system(1000, 250, 400)));
    let s = a.get_state();
    assert_eq!(s.system.used_kb, 600);
    assert_eq!(s.system.available_kb, 400);
}

#[test]
fn sharing_efficiency_zero_without_resident_memory() {
    let mut a = Analyzer::new();
    a.update(snapshot(vec![process(1, 0, 500)], system(1000, 100, 100)));
    let s = a.get_state();
    assert_eq!(s.system.total_process_rss_kb, 0);
    assert_eq!(s.shared_memory.saved_by_sharing_kb, 0);
    assert_eq!(s.shared_memory.sharing_efficiency_permille, 0);
}

#[test]
fn sharing_efficiency_two_process_scenario() {
    let mut a = Analyzer::new();
    let procs = vec![process(1, 1200, 1000), process(2, 2500, 2000)];
    a.update(snapshot(procs, system(100000, 10000, 10000)));
    let s = a.get_state();
    assert_eq!(s.system.total_process_pss_kb, 3000);
    assert_eq!(s.system.total_process_rss_kb, 3700);
    assert_eq!(s.shared_memory.saved_by_sharing_kb, 700);
    // (3700 - 3000) / 3700 is about 18.9%, 189 per thousand rounded down.
    assert_eq!(s.shared_memory.sharing_efficiency_permille, 189);
}

#[test]
fn numa_nodes_pass_through_analysis() {
    let mut a = Analyzer::new();
    let node = NumaNode { node_id: 0, mem_total_kb: 500, mem_free_kb: 100, mem_used_kb: 400 };
    let snap = MemorySnapshot {
        processes: Vec::new(),
        system: system(1000, 100, 100),
        numa_nodes: vec![node],
    };
    a.update(snap);
    let s = a.get_state();
    assert_eq!(s.numa_nodes.len(), 1);
    assert_eq!(s.numa_nodes[0], node);
}

#[test]
fn limit_checker_accepts_ordinary_snapshots() {
    let snap = snapshot(
        vec![process(1, 1200, 1000), process(2, 2500, 2000)],
        system(100000, 10000, 10000),
    );
    assert!(snapshot_within_limits(&snap));
}

#[test]
fn limit_checker_rejects_oversized_proportional_value() {
    let snap = snapshot(
        vec![process(1, u64::MAX, i64::MAX as u64 + 1)],
        system(1000, 100, 100),
    );
    assert!(!snapshot_within_limits(&snap));
}

#[test]
fn limit_checker_rejects_overflowing_resident_sum() {
    let snap = snapshot(
        vec![process(1, u64::MAX, 10), process(2, u64::MAX, 10)],
        system(1000, 100, 100),
    );
    assert!(!snapshot_within_limits(&snap));
}

#[test]
fn limit_checker_rejects_proportional_above_resident() {
    let snap = snapshot(vec![process(1, 100, 200)], system(1000, 100, 100));
    assert!(!snapshot_within_limits(&snap));
}
