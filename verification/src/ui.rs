//! View state for an interactive front end: which view is shown, how the
//! process table is sorted, and how far it is scrolled.
//!
//! Rendering itself is outside the library; this module owns the decisions —
//! the sort orders (stable, so that rows with equal keys keep their order),
//! the mode cycles, and the scrolling bounds.

use vstd::prelude::*;

use crate::analyzer::{
    memory_map_of, shared_stats_of, system_stats_of, AnalyzedState, MemoryMap, ProcessStats,
    ProcessStatsV, SharedMemoryStats, SystemStats,
};
use crate::collector::zero_system;
use crate::collector::ProcessMemoryV;

verus! {

/// The key by which the process table is ordered.
#[derive(Debug, Clone, Copy, PartialEq, Eq, Structural)]
pub enum SortMode {
    Pss,
    Rss,
    Shared,
    Pid,
}

/// Which of the three views is shown.
#[derive(Debug, Clone, Copy, PartialEq, Eq, Structural)]
pub enum ViewMode {
    Processes,
    MemoryMap,
    SharedMemory,
}

/// Whether `a` may stay in front of `b` under a sort mode: the size keys
/// order descending, the id key ascending.
pub open spec fn proc_le(mode: SortMode, a: ProcessStatsV, b: ProcessStatsV) -> bool {
    match mode {
        SortMode::Pss => a.pss_kb >= b.pss_kb,
        SortMode::Rss => a.rss_kb >= b.rss_kb,
        SortMode::Shared => a.shared_kb >= b.shared_kb,
        SortMode::Pid => a.pid <= b.pid,
    }
}

/// Stable insertion under a sort mode: after every record that may stay in
/// front of the new one.
pub open spec fn insert_proc_sorted(
    mode: SortMode,
    n: ProcessStatsV,
    s: Seq<ProcessStatsV>,
) -> Seq<ProcessStatsV>
    decreases s.len(),
{
    if s.len() == 0 {
        seq![n]
    } else if proc_le(mode, s[0], n) {
        seq![s[0]] + insert_proc_sorted(mode, n, s.drop_first())
    } else {
        seq![n] + s
    }
}

/// The stable ordering of the process table under a sort mode.
pub open spec fn sort_procs_spec(mode: SortMode, s: Seq<ProcessStatsV>) -> Seq<ProcessStatsV>
    decreases s.len(),
{
    if s.len() == 0 {
        Seq::empty()
    } else {
        insert_proc_sorted(mode, s.last(), sort_procs_spec(mode, s.drop_last()))
    }
}

pub open spec fn procs_sorted(mode: SortMode, s: Seq<ProcessStatsV>) -> bool {
    forall|i: int, j: int| 0 <= i < j < s.len() ==> proc_le(mode, s[i], s[j])
}

proof fn lemma_insert_proc_sorted_at(mode: SortMode, n: ProcessStatsV, s: Seq<ProcessStatsV>, p: int)
    requires
        0 <= p <= s.len(),
        forall|k: int| 0 <= k < p ==> proc_le(mode, s[k], n),
        p < s.len() ==> !proc_le(mode, s[p], n),
    ensures
        insert_proc_sorted(mode, n, s) == s.subrange(0, p) + seq![n] + s.subrange(
            p,
            s.len() as int,
        ),
    decreases p,
{
    if p == 0 {
        assert(insert_proc_sorted(mode, n, s) =~= s.subrange(0, 0) + seq![n] + s.subrange(
            0,
            s.len() as int,
        ));
    } else {
        let d = s.drop_first();
        assert(d =~= s.subrange(1, s.len() as int));
        lemma_insert_proc_sorted_at(mode, n, d, p - 1);
        assert(proc_le(mode, s[0], n));
        assert(insert_proc_sorted(mode, n, s) =~= s.subrange(0, p) + seq![n] + s.subrange(
            p,
            s.len() as int,
        ));
    }
}

proof fn lemma_insert_proc_first(mode: SortMode, n: ProcessStatsV, s: Seq<ProcessStatsV>)
    ensures
        insert_proc_sorted(mode, n, s).len() == s.len() + 1,
        s.len() == 0 ==> insert_proc_sorted(mode, n, s)[0] == n,
        s.len() > 0 ==> insert_proc_sorted(mode, n, s)[0] == n || insert_proc_sorted(mode, n, s)[0]
            == s[0],
    decreases s.len(),
{
    if s.len() > 0 && proc_le(mode, s[0], n) {
        lemma_insert_proc_first(mode, n, s.drop_first());
    }
}

proof fn lemma_insert_proc_keeps_sorted(mode: SortMode, n: ProcessStatsV, s: Seq<ProcessStatsV>)
    requires
        procs_sorted(mode, s),
    ensures
        procs_sorted(mode, insert_proc_sorted(mode, n, s)),
    decreases s.len(),
{
    if s.len() == 0 {
    } else if proc_le(mode, s[0], n) {
        let d = s.drop_first();
        assert(procs_sorted(mode, d));
        lemma_insert_proc_keeps_sorted(mode, n, d);
        let rd = insert_proc_sorted(mode, n, d);
        let r = seq![s[0]] + rd;
        assert forall|i: int, j: int| 0 <= i < j < r.len() implies proc_le(mode, r[i], r[j]) by {
            if i > 0 {
                assert(proc_le(mode, rd[i - 1], rd[j - 1]));
            } else {
                lemma_insert_proc_first(mode, n, d);
                assert(r[j] == rd[j - 1]);
                assert(d.len() > 0 ==> proc_le(mode, s[0], d[0]));
                if rd.len() > 0 {
                    assert(rd[0] == n || d.len() > 0 && rd[0] == d[0]);
                }
                if j - 1 > 0 {
                    assert(proc_le(mode, rd[0], rd[j - 1]));
                }
            }
        }
    } else {
        let r = seq![n] + s;
        assert forall|i: int, j: int| 0 <= i < j < r.len() implies proc_le(mode, r[i], r[j]) by {
            if i > 0 {
                assert(proc_le(mode, s[i - 1], s[j - 1]));
            } else {
                if j - 1 > 0 {
                    assert(proc_le(mode, s[0], s[j - 1]));
                }
            }
        }
    }
}

/// The stable sort of the process table is sorted under its mode.
pub proof fn lemma_sort_procs_sorted(mode: SortMode, s: Seq<ProcessStatsV>)
    ensures
        procs_sorted(mode, sort_procs_spec(mode, s)),
        sort_procs_spec(mode, s).len() == s.len(),
    decreases s.len(),
{
    if s.len() > 0 {
        lemma_sort_procs_sorted(mode, s.drop_last());
        lemma_insert_proc_keeps_sorted(mode, s.last(), sort_procs_spec(mode, s.drop_last()));
        lemma_insert_proc_first(mode, s.last(), sort_procs_spec(mode, s.drop_last()));
    }
}


/// Whether an existing record may stay in front of a new one.
fn proc_stays_before(mode: SortMode, a: &ProcessStats, b: &ProcessStats) -> (r: bool)
    ensures
        r == proc_le(mode, a@, b@),
{
    match mode {
        SortMode::Pss => a.pss_kb >= b.pss_kb,
        SortMode::Rss => a.rss_kb >= b.rss_kb,
        SortMode::Shared => a.shared_kb >= b.shared_kb,
        SortMode::Pid => a.pid <= b.pid,
    }
}

/// Sorts the process table under a sort mode, stably.
pub fn sort_processes(mode: SortMode, v: Vec<ProcessStats>) -> (r: Vec<ProcessStats>)
    ensures
        r.deep_view() == sort_procs_spec(mode, v.deep_view()),
        procs_sorted(mode, r.deep_view()),
{
    let ghost pv = v.deep_view();
    let mut r: Vec<ProcessStats> = Vec::new();
    let mut rest = v;
    let mut i: usize = 0;
    proof {
        assert(pv.take(0) =~= Seq::<ProcessStatsV>::empty());
        assert(r.deep_view() =~= Seq::<ProcessStatsV>::empty());
    }
    let n = rest.len();
    while i < n
        invariant
            0 <= i <= n == rest@.len(),
            pv == rest.deep_view(),
            r.deep_view() == sort_procs_spec(mode, pv.take(i as int)),
        decreases n - i,
    {
        let node = index_clone(&rest, i);
        proof {
            assert(node@ == pv[i as int]);
        }
        let mut p: usize = 0;
        while p < r.len() && proc_stays_before(mode, &r[p], &node)
            invariant
                0 <= p <= r@.len(),
                node@ == pv[i as int],
                forall|k: int| 0 <= k < p ==> proc_le(mode, r.deep_view()[k], node@),
            decreases r@.len() - p,
        {
            proof {
                assert(r[p as int]@ == r.deep_view()[p as int]);
            }
            p += 1;
        }
        proof {
            assert(p < r@.len() ==> r[p as int]@ == r.deep_view()[p as int]);
            lemma_insert_proc_sorted_at(mode, node@, r.deep_view(), p as int);
        }
        let ghost r0 = r.deep_view();
        r.insert(p, node);
        proof {
            assert(r.deep_view() =~= r0.subrange(0, p as int) + seq![pv[i as int]] + r0.subrange(
                p as int,
                r0.len() as int,
            ));
            assert(r.deep_view() == insert_proc_sorted(mode, pv[i as int], r0));
            assert(pv.take(i + 1).drop_last() =~= pv.take(i as int));
            assert(pv.take(i + 1).last() == pv[i as int]);
            assert(r.deep_view() == sort_procs_spec(mode, pv.take(i + 1)));
        }
        i += 1;
    }
    proof {
        assert(pv.take(n as int) =~= pv);
        lemma_sort_procs_sorted(mode, pv);
    }
    r
}

/// Clones the record at one index of the table.
fn index_clone(v: &Vec<ProcessStats>, i: usize) -> (r: ProcessStats)
    requires
        i < v@.len(),
    ensures
        r@ == v.deep_view()[i as int],
{
    let p = &v[i];
    let mut name: Vec<u8> = Vec::new();
    let mut k: usize = 0;
    while k < p.name.len()
        invariant
            0 <= k <= p.name@.len(),
            name@ =~= p.name@.take(k as int),
        decreases p.name@.len() - k,
    {
        name.push(p.name[k]);
        k += 1;
    }
    proof {
        assert(name@ =~= p.name@);
    }
    ProcessStats {
        pid: p.pid,
        name,
        pss_kb: p.pss_kb,
        rss_kb: p.rss_kb,
        shared_kb: p.shared_kb,
        private_kb: p.private_kb,
        swap_kb: p.swap_kb,
        pss_delta_kb: p.pss_delta_kb,
    }
}

/// The cycle of sort modes.
pub open spec fn next_sort_mode(m: SortMode) -> SortMode {
    match m {
        SortMode::Pss => SortMode::Rss,
        SortMode::Rss => SortMode::Shared,
        SortMode::Shared => SortMode::Pid,
        SortMode::Pid => SortMode::Pss,
    }
}

/// The cycle of views.
pub open spec fn next_view_mode(m: ViewMode) -> ViewMode {
    match m {
        ViewMode::Processes => ViewMode::MemoryMap,
        ViewMode::MemoryMap => ViewMode::SharedMemory,
        ViewMode::SharedMemory => ViewMode::Processes,
    }
}

/// The interactive view state.
pub struct App {
    pub state: AnalyzedState,
    pub sort_mode: SortMode,
    pub view_mode: ViewMode,
    pub scroll_offset: usize,
    pub visible_rows: usize,
}

impl App {
    pub fn new() -> (a: App)
        ensures
            a.sort_mode == SortMode::Pss,
            a.view_mode == ViewMode::Processes,
            a.scroll_offset == 0,
            a.visible_rows == 20,
            a.state.processes@.len() == 0,
            a.state.system == system_stats_of(zero_system(), Seq::<ProcessMemoryV>::empty()),
            a.state.shared_memory == shared_stats_of(Seq::<ProcessMemoryV>::empty()),
            a.state.memory_map == memory_map_of(zero_system(), Seq::<ProcessMemoryV>::empty()),
            a.state.numa_nodes@.len() == 0,
    {
        App {
            state: AnalyzedState {
                processes: Vec::new(),
                system: SystemStats {
                    total_kb: 0,
                    used_kb: 0,
                    available_kb: 0,
                    cached_kb: 0,
                    buffers_kb: 0,
                    swap_total_kb: 0,
                    swap_used_kb: 0,
                    total_process_pss_kb: 0,
                    total_process_rss_kb: 0,
                },
                shared_memory: SharedMemoryStats {
                    total_shared_kb: 0,
                    total_shared_clean_kb: 0,
                    total_shared_dirty_kb: 0,
                    saved_by_sharing_kb: 0,
                    sharing_efficiency_permille: 0,
                },
                numa_nodes: Vec::new(),
                memory_map: MemoryMap {
                    kernel_kb: 0,
                    process_private_kb: 0,
                    process_shared_kb: 0,
                    cache_kb: 0,
                    buffers_kb: 0,
                    free_kb: 0,
                    slab_kb: 0,
                    page_tables_kb: 0,
                },
            },
            sort_mode: SortMode::Pss,
            view_mode: ViewMode::Processes,
            scroll_offset: 0,
            visible_rows: 20,
        }
    }

    /// Installs a freshly derived view, with its process table sorted under
    /// the current sort mode.
    pub fn update_data(&mut self, state: AnalyzedState)
        ensures
            final(self).state.processes.deep_view() == sort_procs_spec(
                old(self).sort_mode,
                state.processes.deep_view(),
            ),
            procs_sorted(old(self).sort_mode, final(self).state.processes.deep_view()),
            final(self).state.system == state.system,
            final(self).state.shared_memory == state.shared_memory,
            final(self).state.memory_map == state.memory_map,
            final(self).state.numa_nodes == state.numa_nodes,
            final(self).sort_mode == old(self).sort_mode,
            final(self).view_mode == old(self).view_mode,
            final(self).scroll_offset == old(self).scroll_offset,
            final(self).visible_rows == old(self).visible_rows,
    {
        let AnalyzedState { processes, system, shared_memory, numa_nodes, memory_map } = state;
        let sorted = sort_processes(self.sort_mode, processes);
        self.state = AnalyzedState {
            processes: sorted,
            system,
            shared_memory,
            numa_nodes,
            memory_map,
        };
    }

    /// Steps to the next sort key and rewinds the scroll.
    pub fn next_sort(&mut self)
        ensures
            final(self).sort_mode == next_sort_mode(old(self).sort_mode),
            final(self).scroll_offset == 0,
            final(self).state == old(self).state,
            final(self).view_mode == old(self).view_mode,
            final(self).visible_rows == old(self).visible_rows,
    {
        self.sort_mode = match self.sort_mode {
            SortMode::Pss => SortMode::Rss,
            SortMode::Rss => SortMode::Shared,
            SortMode::Shared => SortMode::Pid,
            SortMode::Pid => SortMode::Pss,
        };
        self.scroll_offset = 0;
    }

    /// Steps to the next view and rewinds the scroll.
    pub fn toggle_view(&mut self)
        ensures
            final(self).view_mode == next_view_mode(old(self).view_mode),
            final(self).scroll_offset == 0,
            final(self).state == old(self).state,
            final(self).sort_mode == old(self).sort_mode,
            final(self).visible_rows == old(self).visible_rows,
    {
        self.view_mode = match self.view_mode {
            ViewMode::Processes => ViewMode::MemoryMap,
            ViewMode::MemoryMap => ViewMode::SharedMemory,
            ViewMode::SharedMemory => ViewMode::Processes,
        };
        self.scroll_offset = 0;
    }

    pub fn scroll_up(&mut self)
        ensures
            final(self).scroll_offset == (if old(self).scroll_offset > 0 {
                old(self).scroll_offset - 1
            } else {
                0
            }),
            final(self).state == old(self).state,
            final(self).sort_mode == old(self).sort_mode,
            final(self).view_mode == old(self).view_mode,
            final(self).visible_rows == old(self).visible_rows,
    {
        if self.scroll_offset > 0 {
            self.scroll_offset = self.scroll_offset - 1;
        }
    }

    pub fn scroll_down(&mut self)
        requires
            old(self).scroll_offset + old(self).visible_rows <= usize::MAX,
        ensures
            final(self).scroll_offset == (if old(self).scroll_offset + old(self).visible_rows
                < old(self).state.processes@.len() {
                old(self).scroll_offset + 1
            } else {
                old(self).scroll_offset as int
            }),
            final(self).state == old(self).state,
            final(self).sort_mode == old(self).sort_mode,
            final(self).view_mode == old(self).view_mode,
            final(self).visible_rows == old(self).visible_rows,
    {
        if self.scroll_offset + self.visible_rows < self.state.processes.len() {
            self.scroll_offset = self.scroll_offset + 1;
        }
    }

    pub fn page_up(&mut self)
        ensures
            final(self).scroll_offset == (if old(self).scroll_offset > old(self).visible_rows {
                old(self).scroll_offset - old(self).visible_rows
            } else {
                0
            }),
            final(self).state == old(self).state,
            final(self).sort_mode == old(self).sort_mode,
            final(self).view_mode == old(self).view_mode,
            final(self).visible_rows == old(self).visible_rows,
    {
        if self.scroll_offset > self.visible_rows {
            self.scroll_offset = self.scroll_offset - self.visible_rows;
        } else {
            self.scroll_offset = 0;
        }
    }

    pub fn page_down(&mut self)
        requires
            old(self).scroll_offset + old(self).visible_rows <= usize::MAX,
        ensures
            ({
                let max_offset = if old(self).state.processes@.len() > old(self).visible_rows {
                    old(self).state.processes@.len() - old(self).visible_rows
                } else {
                    0
                };
                let stepped = old(self).scroll_offset + old(self).visible_rows;
                final(self).scroll_offset == (if stepped < max_offset {
                    stepped
                } else {
                    max_offset
                })
            }),
            final(self).state == old(self).state,
            final(self).sort_mode == old(self).sort_mode,
            final(self).view_mode == old(self).view_mode,
            final(self).visible_rows == old(self).visible_rows,
    {
        let len = self.state.processes.len();
        let max_offset = if len > self.visible_rows {
            len - self.visible_rows
        } else {
            0
        };
        let stepped = self.scroll_offset + self.visible_rows;
        self.scroll_offset = if stepped < max_offset {
            stepped
        } else {
            max_offset
        };
    }
}

} // verus!
