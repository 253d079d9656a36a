use memlens::analyzer::{AnalyzedState, MemoryMap, ProcessStats, SharedMemoryStats, SystemStats};
use memlens::ui::{sort_processes, App, SortMode, ViewMode};

fn stats(pid: u32, pss: u64, rss: u64, shared: u64) -> ProcessStats {
    ProcessStats {
        pid,
        name: format!("p{}", pid).into_bytes(),
        pss_kb: pss,
        rss_kb: rss,
        shared_kb: shared,
        private_kb: 0,
        swap_kb: 0,
        pss_delta_kb: 0,
    }
}

fn state_with(processes: Vec<ProcessStats>) -> AnalyzedState {
    AnalyzedState {
        processes,
        system: SystemStats {
            total_kb: 0,
            used_kb: 0,
            available_kb: 0,
            cached_kb: 0,
            buffers_kb: 0,
            swap_total_kb: 0,
            swap_used_kb: 0,
            total_process_pss_kb: 0,
            total_process_rss_kb: 0,
        },
        shared_memory: SharedMemoryStats {
            total_shared_kb: 0,
            total_shared_clean_kb: 0,
            total_shared_dirty_kb: 0,
            saved_by_sharing_kb: 0,
            sharing_efficiency_permille: 0,
        },
        numa_nodes: Vec::new(),
        memory_map: MemoryMap {
            kernel_kb: 0,
            process_private_kb: 0,
            process_shared_kb: 0,
            cache_kb: 0,
            buffers_kb: 0,
            free_kb: 0,
            slab_kb: 0,
            page_tables_kb: 0,
        },
    }
}

#[test]
fn app_starts_on_process_view_sorted_by_pss() {
    let a = App::new();
    assert_eq!(a.sort_mode, SortMode::Pss);
    assert_eq!(a.view_mode, ViewMode::Processes);
    assert_eq!(a.scroll_offset, 0);
    assert!(a.state.processes.is_empty());
}

#[test]
fn sort_by_pss_is_descending() {
    let v = vec![stats(1, 10, 0, 0), stats(2, 30, 0, 0), stats(3, 20, 0, 0)];
    let r = sort_processes(SortMode::Pss, v);
    let pids: Vec<u32> = r.iter().map(|p| p.pid).collect();
    assert_eq!(pids, vec![2, 3, 1]);
}

#[test]
fn sort_by_rss_is_descending() {
    let v = vec![stats(1, 0, 5, 0), stats(2, 0, 50, 0), stats(3, 0, 25, 0)];
    let r = sort_processes(SortMode::Rss, v);
    let pids: Vec<u32> = r.iter().map(|p| p.pid).collect();
    assert_eq!(pids, vec![2, 3, 1]);
}

#[test]
fn sort_by_shared_is_descending() {
    let v = vec![stats(1, 0, 0, 1), stats(2, 0, 0, 9), stats(3, 0, 0, 4)];
    let r = sort_processes(SortMode::Shared, v);
    let pids: Vec<u32> = r.iter().map(|p| p.pid).collect();
    assert_eq!(pids, vec![2, 3, 1]);
}

#[test]
fn sort_by_pid_is_ascending() {
    let v = vec![stats(30, 0, 0, 0), stats(1, 0, 0, 0), stats(20, 0, 0, 0)];
    let r = sort_processes(SortMode::Pid, v);
    let pids: Vec<u32> = r.iter().map(|p| p.pid).collect();
    assert_eq!(pids, vec![1, 20, 30]);
}

#[test]
fn sort_is_stable_for_equal_keys() {
    let v = vec![stats(5, 10, 0, 0), stats(9, 10, 0, 0), stats(2, 10, 0, 0)];
    let r = sort_processes(SortMode::Pss, v);
    let pids: Vec<u32> = r.iter().map(|p| p.pid).collect();
    assert_eq!(pids, vec![5, 9, 2]);
}

#[test]
fn update_data_sorts_under_current_mode() {
    let mut a = App::new();
    a.next_sort();
    assert_eq!(a.sort_mode, SortMode::Rss);
    a.update_data(state_with(vec![stats(1, 0, 5, 0), stats(2, 0, 50, 0)]));
    let pids: Vec<u32> = a.state.processes.iter().map(|p| p.pid).collect();
    assert_eq!(pids, vec![2, 1]);
}

#[test]
fn sort_modes_cycle() {
    let mut a = App::new();
    a.next_sort();
    assert_eq!(a.sort_mode, SortMode::Rss);
    a.next_sort();
    assert_eq!(a.sort_mode, SortMode::Shared);
    a.next_sort();
    assert_eq!(a.sort_mode, SortMode::Pid);
    a.next_sort();
    assert_eq!(a.sort_mode, SortMode::Pss);
}

#[test]
fn views_cycle_and_rewind_scroll() {
    let mut a = App::new();
    a.update_data(state_with((0..50).map(|i| stats(i, 0, 0, 0)).collect()));
    a.scroll_down();
    assert_eq!(a.scroll_offset, 1);
    a.toggle_view();
    assert_eq!(a.view_mode, ViewMode::MemoryMap);
    assert_eq!(a.scroll_offset, 0);
    a.toggle_view();
    assert_eq!(a.view_mode, ViewMode::SharedMemory);
    a.toggle_view();
    assert_eq!(a.view_mode, ViewMode::Processes);
}

#[test]
fn scrolling_stays_in_bounds() {
    let mut a = App::new();
    a.update_data(state_with((0..25).map(|i| stats(i, 0, 0, 0)).collect()));
    a.scroll_up();
    assert_eq!(a.scroll_offset, 0);
    a.scroll_down();
    a.scroll_down();
    assert_eq!(a.scroll_offset, 2);
    a.page_down();
    // 25 rows with 20 visible leave at most 5 hidden above.
    assert_eq!(a.scroll_offset, 5);
    a.page_down();
    assert_eq!(a.scroll_offset, 5);
    a.page_up();
    assert_eq!(a.scroll_offset, 0);
}
