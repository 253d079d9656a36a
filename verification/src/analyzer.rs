//! Turning raw snapshots into the derived, reconciled statistical view.
//!
//! The analyzer is the stateful half of the pipeline: it keeps the most
//! recent snapshot and a per-process baseline of proportional sizes, rebuilt
//! wholesale on every analysis, and derives per-process statistics with
//! sample-to-sample deltas, system-wide statistics, sharing-efficiency
//! statistics, and a mutually-exclusive breakdown of total memory.

use vstd::prelude::*;

use std::collections::HashMap;

use crate::collector::{sat_sub_u64, zero_system, MemorySnapshot, NumaNode, ProcessMemory,
    ProcessMemoryV, SystemMemory};

verus! {

broadcast use vstd::std_specs::hash::group_hash_axioms;

// ---------------------------------------------------------------------------
// Derived records
// ---------------------------------------------------------------------------

/// Derived per-process statistics, all sizes in kB.
#[derive(Debug, Clone, PartialEq, Eq)]
pub struct ProcessStats {
    pub pid: u32,
    pub name: Vec<u8>,
    pub pss_kb: u64,
    pub rss_kb: u64,
    pub shared_kb: u64,
    pub private_kb: u64,
    pub swap_kb: u64,
    pub pss_delta_kb: i64,
}

/// The mathematical value of a [`ProcessStats`] record.
pub struct ProcessStatsV {
    pub pid: u32,
    pub name: Seq<u8>,
    pub pss_kb: u64,
    pub rss_kb: u64,
    pub shared_kb: u64,
    pub private_kb: u64,
    pub swap_kb: u64,
    pub pss_delta_kb: i64,
}

impl View for ProcessStats {
    type V = ProcessStatsV;

    open spec fn view(&self) -> ProcessStatsV {
        ProcessStatsV {
            pid: self.pid,
            name: self.name@,
            pss_kb: self.pss_kb,
            rss_kb: self.rss_kb,
            shared_kb: self.shared_kb,
            private_kb: self.private_kb,
            swap_kb: self.swap_kb,
            pss_delta_kb: self.pss_delta_kb,
        }
    }
}

impl DeepView for ProcessStats {
    type V = ProcessStatsV;

    open spec fn deep_view(&self) -> ProcessStatsV {
        self.view()
    }
}

/// Derived system-wide statistics, all sizes in kB.
#[derive(Debug, Clone, Copy, PartialEq, Eq, Structural)]
pub struct SystemStats {
    pub total_kb: u64,
    pub used_kb: u64,
    pub available_kb: u64,
    pub cached_kb: u64,
    pub buffers_kb: u64,
    pub swap_total_kb: u64,
    pub swap_used_kb: u64,
    pub total_process_pss_kb: u64,
    pub total_process_rss_kb: u64,
}

/// Derived sharing statistics.  The sharing efficiency — the share of
/// aggregate resident memory that proportional accounting does not charge
/// twice — is an exact ratio: `saved_by_sharing_kb` out of every
/// `total_process_rss_kb` resident kilobytes, also given rounded down in
/// thousandths (tenths of a percent).
#[derive(Debug, Clone, Copy, PartialEq, Eq, Structural)]
pub struct SharedMemoryStats {
    pub total_shared_kb: u64,
    pub total_shared_clean_kb: u64,
    pub total_shared_dirty_kb: u64,
    pub saved_by_sharing_kb: u64,
    pub sharing_efficiency_permille: u64,
}

/// Mutually-exclusive breakdown of total physical memory, in kB.  The
/// `process_shared_kb` figure is informational and not part of the additive
/// reconciliation.
#[derive(Debug, Clone, Copy, PartialEq, Eq, Structural)]
pub struct MemoryMap {
    pub kernel_kb: u64,
    pub process_private_kb: u64,
    pub process_shared_kb: u64,
    pub cache_kb: u64,
    pub buffers_kb: u64,
    pub free_kb: u64,
    pub slab_kb: u64,
    pub page_tables_kb: u64,
}

/// Everything the analyzer derives from one snapshot.
#[derive(Debug, Clone, PartialEq, Eq)]
pub struct AnalyzedState {
    pub processes: Vec<ProcessStats>,
    pub system: SystemStats,
    pub shared_memory: SharedMemoryStats,
    pub numa_nodes: Vec<NumaNode>,
    pub memory_map: MemoryMap,
}

// ---------------------------------------------------------------------------
// Sums over the process list
// ---------------------------------------------------------------------------

pub open spec fn sum_by(s: Seq<ProcessMemoryV>, f: spec_fn(ProcessMemoryV) -> int) -> int
    decreases s.len(),
{
    if s.len() == 0 {
        0
    } else {
        sum_by(s.drop_last(), f) + f(s.last())
    }
}

pub open spec fn pss_of() -> spec_fn(ProcessMemoryV) -> int {
    |p: ProcessMemoryV| p.pss_kb as int
}

pub open spec fn rss_of() -> spec_fn(ProcessMemoryV) -> int {
    |p: ProcessMemoryV| p.rss_kb as int
}

pub open spec fn shared_of() -> spec_fn(ProcessMemoryV) -> int {
    |p: ProcessMemoryV| p.shared_clean_kb + p.shared_dirty_kb
}

pub open spec fn shared_clean_of() -> spec_fn(ProcessMemoryV) -> int {
    |p: ProcessMemoryV| p.shared_clean_kb as int
}

pub open spec fn shared_dirty_of() -> spec_fn(ProcessMemoryV) -> int {
    |p: ProcessMemoryV| p.shared_dirty_kb as int
}

pub open spec fn private_of() -> spec_fn(ProcessMemoryV) -> int {
    |p: ProcessMemoryV| p.private_clean_kb + p.private_dirty_kb
}

pub open spec fn sum_pss(s: Seq<ProcessMemoryV>) -> int {
    sum_by(s, pss_of())
}

pub open spec fn sum_rss(s: Seq<ProcessMemoryV>) -> int {
    sum_by(s, rss_of())
}

pub open spec fn sum_shared(s: Seq<ProcessMemoryV>) -> int {
    sum_by(s, shared_of())
}

pub open spec fn sum_shared_clean(s: Seq<ProcessMemoryV>) -> int {
    sum_by(s, shared_clean_of())
}

pub open spec fn sum_shared_dirty(s: Seq<ProcessMemoryV>) -> int {
    sum_by(s, shared_dirty_of())
}

pub open spec fn sum_private(s: Seq<ProcessMemoryV>) -> int {
    sum_by(s, private_of())
}

proof fn lemma_sum_by_take_step(s: Seq<ProcessMemoryV>, f: spec_fn(ProcessMemoryV) -> int, i: int)
    requires
        0 <= i < s.len(),
    ensures
        sum_by(s.take(i + 1), f) == sum_by(s.take(i), f) + f(s[i]),
{
    assert(s.take(i + 1).drop_last() =~= s.take(i));
    assert(s.take(i + 1).last() == s[i]);
}

proof fn lemma_sum_by_nonneg(s: Seq<ProcessMemoryV>, f: spec_fn(ProcessMemoryV) -> int)
    requires
        forall|j: int| 0 <= j < s.len() ==> #[trigger] f(s[j]) >= 0,
    ensures
        sum_by(s, f) >= 0,
    decreases s.len(),
{
    if s.len() > 0 {
        assert(forall|j: int|
            0 <= j < s.drop_last().len() ==> #[trigger] f(s.drop_last()[j]) >= 0);
        lemma_sum_by_nonneg(s.drop_last(), f);
    }
}

proof fn lemma_sum_by_prefix_bound(
    s: Seq<ProcessMemoryV>,
    f: spec_fn(ProcessMemoryV) -> int,
    i: int,
)
    requires
        0 <= i <= s.len(),
        forall|j: int| 0 <= j < s.len() ==> #[trigger] f(s[j]) >= 0,
    ensures
        sum_by(s.take(i), f) <= sum_by(s, f),
    decreases s.len() - i,
{
    if i == s.len() {
        assert(s.take(i) =~= s);
    } else {
        lemma_sum_by_take_step(s, f, i);
        lemma_sum_by_prefix_bound(s, f, i + 1);
    }
}

proof fn lemma_sum_by_element_bound(
    s: Seq<ProcessMemoryV>,
    f: spec_fn(ProcessMemoryV) -> int,
    i: int,
)
    requires
        0 <= i < s.len(),
        forall|j: int| 0 <= j < s.len() ==> #[trigger] f(s[j]) >= 0,
    ensures
        f(s[i]) <= sum_by(s, f),
{
    lemma_sum_by_take_step(s, f, i);
    lemma_sum_by_prefix_bound(s, f, i + 1);
    assert(forall|j: int| 0 <= j < s.take(i).len() ==> #[trigger] f(s.take(i)[j]) >= 0);
    lemma_sum_by_nonneg(s.take(i), f);
}

// ---------------------------------------------------------------------------
// The derived view, mathematically
// ---------------------------------------------------------------------------

/// The per-process baseline after analyzing a process list: exactly the
/// listed processes, each mapped to its proportional size, with a later
/// occurrence of a reused id winning.
pub open spec fn history_of(s: Seq<ProcessMemoryV>) -> Map<u32, u64>
    decreases s.len(),
{
    if s.len() == 0 {
        Map::empty()
    } else {
        history_of(s.drop_last()).insert(s.last().pid, s.last().pss_kb)
    }
}

/// One process's derived statistics against a baseline: shared and private
/// are the sums of their clean and dirty parts, and the delta is the change
/// in proportional size against the baseline, zero for an id that has no
/// baseline entry.
pub open spec fn stats_of(p: ProcessMemoryV, h: Map<u32, u64>) -> ProcessStatsV {
    let prev = if h.contains_key(p.pid) {
        h[p.pid]
    } else {
        p.pss_kb
    };
    ProcessStatsV {
        pid: p.pid,
        name: p.name,
        pss_kb: p.pss_kb,
        rss_kb: p.rss_kb,
        shared_kb: (p.shared_clean_kb + p.shared_dirty_kb) as u64,
        private_kb: (p.private_clean_kb + p.private_dirty_kb) as u64,
        swap_kb: p.swap_kb,
        pss_delta_kb: (p.pss_kb - prev) as i64,
    }
}

pub open spec fn stats_seq(s: Seq<ProcessMemoryV>, h: Map<u32, u64>) -> Seq<ProcessStatsV> {
    Seq::new(s.len(), |i: int| stats_of(s[i], h))
}

/// Derived system statistics: used memory goes by the kernel's availability
/// estimate, not by free memory, and both subtractions bottom out at zero.
pub open spec fn system_stats_of(sys: SystemMemory, procs: Seq<ProcessMemoryV>) -> SystemStats {
    SystemStats {
        total_kb: sys.total_kb,
        used_kb: sat_sub_u64(sys.total_kb, sys.available_kb),
        available_kb: sys.available_kb,
        cached_kb: sys.cached_kb,
        buffers_kb: sys.buffers_kb,
        swap_total_kb: sys.swap_total_kb,
        swap_used_kb: sat_sub_u64(sys.swap_total_kb, sys.swap_free_kb),
        total_process_pss_kb: sum_pss(procs) as u64,
        total_process_rss_kb: sum_rss(procs) as u64,
    }
}

/// Derived sharing statistics: the kilobytes saved by sharing are the excess
/// of aggregate resident over aggregate proportional size, zero when nothing
/// is resident, and the efficiency is that excess per thousand resident
/// kilobytes, rounded down.
pub open spec fn shared_stats_of(procs: Seq<ProcessMemoryV>) -> SharedMemoryStats {
    let rss = sum_rss(procs);
    let pss = sum_pss(procs);
    SharedMemoryStats {
        total_shared_kb: sum_shared(procs) as u64,
        total_shared_clean_kb: sum_shared_clean(procs) as u64,
        total_shared_dirty_kb: sum_shared_dirty(procs) as u64,
        saved_by_sharing_kb: if rss > 0 {
            (rss - pss) as u64
        } else {
            0
        },
        sharing_efficiency_permille: if rss > 0 {
            ((rss - pss) * 1000 / rss) as u64
        } else {
            0
        },
    }
}

/// The memory map: the kernel bucket is the residual of total memory over
/// the separately accounted categories, clamped at zero when those already
/// exceed the total.
pub open spec fn memory_map_of(sys: SystemMemory, procs: Seq<ProcessMemoryV>) -> MemoryMap {
    let private = sum_private(procs);
    let accounted = private + sys.cached_kb + sys.buffers_kb + sys.free_kb + sys.slab_kb
        + sys.page_tables_kb;
    MemoryMap {
        kernel_kb: if sys.total_kb >= accounted {
            (sys.total_kb - accounted) as u64
        } else {
            0
        },
        process_private_kb: private as u64,
        process_shared_kb: sum_shared(procs) as u64,
        cache_kb: sys.cached_kb,
        buffers_kb: sys.buffers_kb,
        free_kb: sys.free_kb,
        slab_kb: sys.slab_kb,
        page_tables_kb: sys.page_tables_kb,
    }
}

/// The machine limits under which one snapshot can be analyzed without the
/// sums and deltas leaving their types: every aggregate fits in 64 bits,
/// aggregate proportional size does not exceed aggregate resident size when
/// anything is resident, and every proportional size leaves room for a
/// signed delta.
pub open spec fn snapshot_ok(procs: Seq<ProcessMemoryV>, sys: SystemMemory) -> bool {
    &&& sum_rss(procs) <= u64::MAX
    &&& sum_pss(procs) <= u64::MAX
    &&& (sum_rss(procs) > 0 ==> sum_pss(procs) <= sum_rss(procs))
    &&& sum_shared(procs) <= u64::MAX
    &&& sum_shared_clean(procs) <= u64::MAX
    &&& sum_shared_dirty(procs) <= u64::MAX
    &&& sum_private(procs) <= u64::MAX
    &&& sum_private(procs) + sys.cached_kb + sys.buffers_kb + sys.free_kb + sys.slab_kb
        + sys.page_tables_kb <= u64::MAX
    &&& forall|i: int| 0 <= i < procs.len() ==> #[trigger] procs[i].pss_kb <= i64::MAX
}

/// Every baseline value leaves room for a signed delta.
pub open spec fn hist_ok(h: Map<u32, u64>) -> bool {
    forall|k: u32| #[trigger] h.contains_key(k) ==> h[k] <= i64::MAX
}

proof fn lemma_history_values_bounded(s: Seq<ProcessMemoryV>)
    requires
        forall|i: int| 0 <= i < s.len() ==> #[trigger] s[i].pss_kb <= i64::MAX,
    ensures
        hist_ok(history_of(s)),
    decreases s.len(),
{
    if s.len() > 0 {
        assert(forall|i: int|
            0 <= i < s.drop_last().len() ==> #[trigger] s.drop_last()[i].pss_kb <= i64::MAX);
        lemma_history_values_bounded(s.drop_last());
        assert(s.last().pss_kb <= i64::MAX);
    }
}

// ---------------------------------------------------------------------------
// The analyzer
// ---------------------------------------------------------------------------

/// Stateful analyzer: holds the most recent snapshot and the per-process
/// proportional-size baseline of the most recent analysis.
pub struct Analyzer {
    last_snapshot: Option<MemorySnapshot>,
    process_history: HashMap<u32, u64>,
}

impl Analyzer {
    /// The most recent snapshot, if any was ever supplied.
    pub closed spec fn snapshot(self) -> Option<MemorySnapshot> {
        self.last_snapshot
    }

    /// The per-process proportional-size baseline.
    pub closed spec fn history(self) -> Map<u32, u64> {
        self.process_history@
    }

    /// The analyzer's invariant: the stored snapshot is analyzable and the
    /// baseline values leave room for signed deltas.
    pub open spec fn wf(self) -> bool {
        &&& hist_ok(self.history())
        &&& match self.snapshot() {
            Some(s) => snapshot_ok(s.processes.deep_view(), s.system),
            None => true,
        }
    }

    pub fn new() -> (a: Analyzer)
        ensures
            a.snapshot() is None,
            a.history() == Map::<u32, u64>::empty(),
            a.wf(),
    {
        Analyzer { last_snapshot: None, process_history: HashMap::new() }
    }

    /// Replaces the stored snapshot unconditionally; the baseline is left
    /// untouched until the next analysis.
    pub fn update(&mut self, snapshot: MemorySnapshot)
        requires
            old(self).wf(),
            snapshot_ok(snapshot.processes.deep_view(), snapshot.system),
        ensures
            final(self).snapshot() == Some(snapshot),
            final(self).history() == old(self).history(),
            final(self).wf(),
    {
        self.last_snapshot = Some(snapshot);
    }

    /// Computes the derived view.  Before any snapshot was supplied it is the
    /// all-zero view and nothing changes; otherwise every derived figure is
    /// determined by the stored snapshot and the baseline, and the baseline
    /// is replaced wholesale by this cycle's process list.
    pub fn get_state(&mut self) -> (r: AnalyzedState)
        requires
            old(self).wf(),
        ensures
            final(self).wf(),
            old(self).snapshot() is None ==> {
                &&& *final(self) == *old(self)
                &&& r.processes@.len() == 0
                &&& r.system == system_stats_of(zero_system(), Seq::<ProcessMemoryV>::empty())
                &&& r.shared_memory == shared_stats_of(Seq::<ProcessMemoryV>::empty())
                &&& r.memory_map == memory_map_of(zero_system(), Seq::<ProcessMemoryV>::empty())
                &&& r.numa_nodes@.len() == 0
            },
            old(self).snapshot() matches Some(snap) ==> {
                &&& r.processes.deep_view() == stats_seq(
                    snap.processes.deep_view(),
                    old(self).history(),
                )
                &&& r.system == system_stats_of(snap.system, snap.processes.deep_view())
                &&& r.shared_memory == shared_stats_of(snap.processes.deep_view())
                &&& r.memory_map == memory_map_of(snap.system, snap.processes.deep_view())
                &&& r.numa_nodes@ == snap.numa_nodes@
                &&& final(self).history() == history_of(snap.processes.deep_view())
                &&& final(self).snapshot() == old(self).snapshot()
            },
    {
        let (r, nh) = match &self.last_snapshot {
            None => (Self::empty_state(), None),
            Some(snap) => {
                let (stats, new_history) = Self::analyze_processes(
                    &self.process_history,
                    &snap.processes,
                );
                let system = Self::analyze_system(&snap.system, &snap.processes);
                let shared_memory = Self::analyze_shared_memory(&snap.processes);
                let memory_map = Self::build_memory_map(&snap.system, &snap.processes);
                let numa_nodes = copy_nodes(&snap.numa_nodes);
                proof {
                    lemma_history_values_bounded(snap.processes.deep_view());
                }
                (
                    AnalyzedState { processes: stats, system, shared_memory, numa_nodes, memory_map },
                    Some(new_history),
                )
            },
        };
        match nh {
            Some(h) => {
                self.process_history = h;
            },
            None => {},
        }
        r
    }

    /// The all-zero view shown before the first sample.
    fn empty_state() -> (r: AnalyzedState)
        ensures
            r.processes@.len() == 0,
            r.system == system_stats_of(zero_system(), Seq::<ProcessMemoryV>::empty()),
            r.shared_memory == shared_stats_of(Seq::<ProcessMemoryV>::empty()),
            r.memory_map == memory_map_of(zero_system(), Seq::<ProcessMemoryV>::empty()),
            r.numa_nodes@.len() == 0,
    {
        AnalyzedState {
            processes: Vec::new(),
            system: SystemStats {
                total_kb: 0,
                used_kb: 0,
                available_kb: 0,
                cached_kb: 0,
                buffers_kb: 0,
                swap_total_kb: 0,
                swap_used_kb: 0,
                total_process_pss_kb: 0,
                total_process_rss_kb: 0,
            },
            shared_memory: SharedMemoryStats {
                total_shared_kb: 0,
                total_shared_clean_kb: 0,
                total_shared_dirty_kb: 0,
                saved_by_sharing_kb: 0,
                sharing_efficiency_permille: 0,
            },
            numa_nodes: Vec::new(),
            memory_map: MemoryMap {
                kernel_kb: 0,
                process_private_kb: 0,
                process_shared_kb: 0,
                cache_kb: 0,
                buffers_kb: 0,
                free_kb: 0,
                slab_kb: 0,
                page_tables_kb: 0,
            },
        }
    }

    /// Derives each process's statistics against the old baseline and builds
    /// this cycle's baseline.
    fn analyze_processes(history: &HashMap<u32, u64>, processes: &Vec<ProcessMemory>) -> (r: (
        Vec<ProcessStats>,
        HashMap<u32, u64>,
    ))
        requires
            hist_ok(history@),
            forall|i: int|
                0 <= i < processes.deep_view().len() ==> #[trigger] processes.deep_view()[i].pss_kb
                    <= i64::MAX,
            sum_shared(processes.deep_view()) <= u64::MAX,
            sum_private(processes.deep_view()) <= u64::MAX,
        ensures
            r.0.deep_view() == stats_seq(processes.deep_view(), history@),
            r.1@ == history_of(processes.deep_view()),
    {
        let ghost pv = processes.deep_view();
        let mut stats: Vec<ProcessStats> = Vec::new();
        let mut new_history: HashMap<u32, u64> = HashMap::new();
        let mut i: usize = 0;
        proof {
            assert(pv.take(0) =~= Seq::<ProcessMemoryV>::empty());
        }
        let n = processes.len();
        while i < n
            invariant
                0 <= i <= n == processes@.len(),
                pv == processes.deep_view(),
                hist_ok(history@),
                forall|j: int| 0 <= j < pv.len() ==> #[trigger] pv[j].pss_kb <= i64::MAX,
                sum_shared(pv) <= u64::MAX,
                sum_private(pv) <= u64::MAX,
                stats@.len() == i,
                forall|j: int|
                    0 <= j < i ==> #[trigger] stats.deep_view()[j] == stats_of(pv[j], history@),
                new_history@ == history_of(pv.take(i as int)),
            decreases n - i,
        {
            let p = &processes[i];
            proof {
                assert(p@ == pv[i as int]);
            }
            let prev: u64 = match history.get(&p.pid) {
                Some(v) => *v,
                None => p.pss_kb,
            };
            proof {
                assert(history@.contains_key(p.pid) ==> prev == history@[p.pid] && prev
                    <= i64::MAX);
                assert(pv[i as int].pss_kb <= i64::MAX);
            }
            let delta: i64 = p.pss_kb as i64 - prev as i64;
            proof {
                assert(shared_of()(pv[i as int]) >= 0 && private_of()(pv[i as int]) >= 0);
                assert(forall|j: int| 0 <= j < pv.len() ==> #[trigger] shared_of()(pv[j]) >= 0);
                assert(forall|j: int| 0 <= j < pv.len() ==> #[trigger] private_of()(pv[j]) >= 0);
                lemma_sum_by_element_bound(pv, shared_of(), i as int);
                lemma_sum_by_element_bound(pv, private_of(), i as int);
            }
            let ps = ProcessStats {
                pid: p.pid,
                name: clone_bytes(&p.name),
                pss_kb: p.pss_kb,
                rss_kb: p.rss_kb,
                shared_kb: p.shared_clean_kb + p.shared_dirty_kb,
                private_kb: p.private_clean_kb + p.private_dirty_kb,
                swap_kb: p.swap_kb,
                pss_delta_kb: delta,
            };
            proof {
                assert(ps@ == stats_of(pv[i as int], history@));
            }
            let ghost stats0 = stats.deep_view();
            stats.push(ps);
            proof {
                assert(stats.deep_view() =~= stats0.push(stats.deep_view().last()));
                assert(stats.deep_view()[i as int] == stats_of(pv[i as int], history@));
            }
            new_history.insert(p.pid, p.pss_kb);
            proof {
                assert(pv.take(i + 1).drop_last() =~= pv.take(i as int));
                assert(pv.take(i + 1).last() == pv[i as int]);
                assert(new_history@ == history_of(pv.take(i + 1)));
            }
            i += 1;
        }
        proof {
            assert(pv.take(n as int) =~= pv);
            assert(stats.deep_view() =~= stats_seq(pv, history@));
        }
        (stats, new_history)
    }

    /// Derives the system-wide statistics.
    fn analyze_system(system: &SystemMemory, processes: &Vec<ProcessMemory>) -> (r: SystemStats)
        requires
            sum_pss(processes.deep_view()) <= u64::MAX,
            sum_rss(processes.deep_view()) <= u64::MAX,
        ensures
            r == system_stats_of(*system, processes.deep_view()),
    {
        let total_pss = total_by_pss(processes);
        let total_rss = total_by_rss(processes);
        let swap_used = if system.swap_total_kb >= system.swap_free_kb {
            system.swap_total_kb - system.swap_free_kb
        } else {
            0
        };
        let used = if system.total_kb >= system.available_kb {
            system.total_kb - system.available_kb
        } else {
            0
        };
        SystemStats {
            total_kb: system.total_kb,
            used_kb: used,
            available_kb: system.available_kb,
            cached_kb: system.cached_kb,
            buffers_kb: system.buffers_kb,
            swap_total_kb: system.swap_total_kb,
            swap_used_kb: swap_used,
            total_process_pss_kb: total_pss,
            total_process_rss_kb: total_rss,
        }
    }

    /// Derives the sharing statistics.
    fn analyze_shared_memory(processes: &Vec<ProcessMemory>) -> (r: SharedMemoryStats)
        requires
            sum_pss(processes.deep_view()) <= u64::MAX,
            sum_rss(processes.deep_view()) <= u64::MAX,
            sum_rss(processes.deep_view()) > 0 ==> sum_pss(processes.deep_view()) <= sum_rss(
                processes.deep_view(),
            ),
            sum_shared(processes.deep_view()) <= u64::MAX,
            sum_shared_clean(processes.deep_view()) <= u64::MAX,
            sum_shared_dirty(processes.deep_view()) <= u64::MAX,
        ensures
            r == shared_stats_of(processes.deep_view()),
    {
        let ghost pv = processes.deep_view();
        let total_shared = total_by_shared(processes);
        let total_shared_clean = total_by_shared_clean(processes);
        let total_shared_dirty = total_by_shared_dirty(processes);
        let total_rss = total_by_rss(processes);
        let total_pss = total_by_pss(processes);
        let saved: u64 = if total_rss > 0 {
            total_rss - total_pss
        } else {
            0
        };
        let permille: u64 = if total_rss > 0 {
            let num: u128 = (saved as u128) * 1000;
            let q: u128 = num / (total_rss as u128);
            proof {
                assert((sum_rss(pv) - sum_pss(pv)) * 1000 / sum_rss(pv) <= 1000 && (sum_rss(pv)
                    - sum_pss(pv)) * 1000 / sum_rss(pv) >= 0) by (nonlinear_arith)
                    requires
                        0 <= sum_pss(pv) <= sum_rss(pv),
                        sum_rss(pv) > 0,
                ;
                assert(q == (sum_rss(pv) - sum_pss(pv)) * 1000 / sum_rss(pv));
            }
            q as u64
        } else {
            0
        };
        SharedMemoryStats {
            total_shared_kb: total_shared,
            total_shared_clean_kb: total_shared_clean,
            total_shared_dirty_kb: total_shared_dirty,
            saved_by_sharing_kb: saved,
            sharing_efficiency_permille: permille,
        }
    }

    /// Builds the memory map.
    fn build_memory_map(system: &SystemMemory, processes: &Vec<ProcessMemory>) -> (r: MemoryMap)
        requires
            sum_shared(processes.deep_view()) <= u64::MAX,
            sum_private(processes.deep_view()) <= u64::MAX,
            sum_private(processes.deep_view()) + system.cached_kb + system.buffers_kb
                + system.free_kb + system.slab_kb + system.page_tables_kb <= u64::MAX,
        ensures
            r == memory_map_of(*system, processes.deep_view()),
    {
        let total_private = total_by_private(processes);
        let total_shared = total_by_shared(processes);
        let accounted = total_private + system.cached_kb + system.buffers_kb + system.free_kb
            + system.slab_kb + system.page_tables_kb;
        let kernel = if system.total_kb >= accounted {
            system.total_kb - accounted
        } else {
            0
        };
        MemoryMap {
            kernel_kb: kernel,
            process_private_kb: total_private,
            process_shared_kb: total_shared,
            cache_kb: system.cached_kb,
            buffers_kb: system.buffers_kb,
            free_kb: system.free_kb,
            slab_kb: system.slab_kb,
            page_tables_kb: system.page_tables_kb,
        }
    }
}

// ---------------------------------------------------------------------------
// Executable sums
// ---------------------------------------------------------------------------

fn copy_nodes(v: &Vec<NumaNode>) -> (r: Vec<NumaNode>)
    ensures
        r@ == v@,
{
    let mut r: Vec<NumaNode> = Vec::new();
    let mut i: usize = 0;
    while i < v.len()
        invariant
            0 <= i <= v@.len(),
            r@ =~= v@.take(i as int),
        decreases v@.len() - i,
    {
        r.push(v[i]);
        i += 1;
    }
    proof {
        assert(v@.take(v@.len() as int) =~= v@);
    }
    r
}

fn clone_bytes(v: &Vec<u8>) -> (r: Vec<u8>)
    ensures
        r@ == v@,
{
    let mut r: Vec<u8> = Vec::new();
    let mut i: usize = 0;
    while i < v.len()
        invariant
            0 <= i <= v@.len(),
            r@ =~= v@.take(i as int),
        decreases v@.len() - i,
    {
        r.push(v[i]);
        i += 1;
    }
    proof {
        assert(v@.take(v@.len() as int) =~= v@);
    }
    r
}

fn total_by_pss(processes: &Vec<ProcessMemory>) -> (r: u64)
    requires
        sum_pss(processes.deep_view()) <= u64::MAX,
    ensures
        r == sum_pss(processes.deep_view()),
{
    let ghost pv = processes.deep_view();
    proof {
        assert(forall|j: int| 0 <= j < pv.len() ==> #[trigger] pss_of()(pv[j]) >= 0);
        assert(pv.take(0) =~= Seq::<ProcessMemoryV>::empty());
    }
    let mut acc: u64 = 0;
    let mut i: usize = 0;
    let n = processes.len();
    while i < n
        invariant
            0 <= i <= n == processes@.len(),
            pv == processes.deep_view(),
            sum_by(pv, pss_of()) <= u64::MAX,
            forall|j: int| 0 <= j < pv.len() ==> #[trigger] pss_of()(pv[j]) >= 0,
            acc == sum_by(pv.take(i as int), pss_of()),
        decreases n - i,
    {
        proof {
            assert(processes[i as int]@ == pv[i as int]);
            lemma_sum_by_take_step(pv, pss_of(), i as int);
            lemma_sum_by_prefix_bound(pv, pss_of(), i + 1);
        }
        acc = acc + processes[i].pss_kb;
        i += 1;
    }
    proof {
        assert(pv.take(n as int) =~= pv);
    }
    acc
}

fn total_by_rss(processes: &Vec<ProcessMemory>) -> (r: u64)
    requires
        sum_rss(processes.deep_view()) <= u64::MAX,
    ensures
        r == sum_rss(processes.deep_view()),
{
    let ghost pv = processes.deep_view();
    proof {
        assert(forall|j: int| 0 <= j < pv.len() ==> #[trigger] rss_of()(pv[j]) >= 0);
        assert(pv.take(0) =~= Seq::<ProcessMemoryV>::empty());
    }
    let mut acc: u64 = 0;
    let mut i: usize = 0;
    let n = processes.len();
    while i < n
        invariant
            0 <= i <= n == processes@.len(),
            pv == processes.deep_view(),
            sum_by(pv, rss_of()) <= u64::MAX,
            forall|j: int| 0 <= j < pv.len() ==> #[trigger] rss_of()(pv[j]) >= 0,
            acc == sum_by(pv.take(i as int), rss_of()),
        decreases n - i,
    {
        proof {
            assert(processes[i as int]@ == pv[i as int]);
            lemma_sum_by_take_step(pv, rss_of(), i as int);
            lemma_sum_by_prefix_bound(pv, rss_of(), i + 1);
        }
        acc = acc + processes[i].rss_kb;
        i += 1;
    }
    proof {
        assert(pv.take(n as int) =~= pv);
    }
    acc
}

fn total_by_shared(processes: &Vec<ProcessMemory>) -> (r: u64)
    requires
        sum_shared(processes.deep_view()) <= u64::MAX,
    ensures
        r == sum_shared(processes.deep_view()),
{
    let ghost pv = processes.deep_view();
    proof {
        assert(forall|j: int| 0 <= j < pv.len() ==> #[trigger] shared_of()(pv[j]) >= 0);
        assert(pv.take(0) =~= Seq::<ProcessMemoryV>::empty());
    }
    let mut acc: u64 = 0;
    let mut i: usize = 0;
    let n = processes.len();
    while i < n
        invariant
            0 <= i <= n == processes@.len(),
            pv == processes.deep_view(),
            sum_by(pv, shared_of()) <= u64::MAX,
            forall|j: int| 0 <= j < pv.len() ==> #[trigger] shared_of()(pv[j]) >= 0,
            acc == sum_by(pv.take(i as int), shared_of()),
        decreases n - i,
    {
        proof {
            assert(processes[i as int]@ == pv[i as int]);
            lemma_sum_by_take_step(pv, shared_of(), i as int);
            lemma_sum_by_prefix_bound(pv, shared_of(), i + 1);
            lemma_sum_by_element_bound(pv, shared_of(), i as int);
        }
        acc = acc + (processes[i].shared_clean_kb + processes[i].shared_dirty_kb);
        i += 1;
    }
    proof {
        assert(pv.take(n as int) =~= pv);
    }
    acc
}

fn total_by_shared_clean(processes: &Vec<ProcessMemory>) -> (r: u64)
    requires
        sum_shared_clean(processes.deep_view()) <= u64::MAX,
    ensures
        r == sum_shared_clean(processes.deep_view()),
{
    let ghost pv = processes.deep_view();
    proof {
        assert(forall|j: int| 0 <= j < pv.len() ==> #[trigger] shared_clean_of()(pv[j]) >= 0);
        assert(pv.take(0) =~= Seq::<ProcessMemoryV>::empty());
    }
    let mut acc: u64 = 0;
    let mut i: usize = 0;
    let n = processes.len();
    while i < n
        invariant
            0 <= i <= n == processes@.len(),
            pv == processes.deep_view(),
            sum_by(pv, shared_clean_of()) <= u64::MAX,
            forall|j: int| 0 <= j < pv.len() ==> #[trigger] shared_clean_of()(pv[j]) >= 0,
            acc == sum_by(pv.take(i as int), shared_clean_of()),
        decreases n - i,
    {
        proof {
            assert(processes[i as int]@ == pv[i as int]);
            lemma_sum_by_take_step(pv, shared_clean_of(), i as int);
            lemma_sum_by_prefix_bound(pv, shared_clean_of(), i + 1);
        }
        acc = acc + processes[i].shared_clean_kb;
        i += 1;
    }
    proof {
        assert(pv.take(n as int) =~= pv);
    }
    acc
}

fn total_by_shared_dirty(processes: &Vec<ProcessMemory>) -> (r: u64)
    requires
        sum_shared_dirty(processes.deep_view()) <= u64::MAX,
    ensures
        r == sum_shared_dirty(processes.deep_view()),
{
    let ghost pv = processes.deep_view();
    proof {
        assert(forall|j: int| 0 <= j < pv.len() ==> #[trigger] shared_dirty_of()(pv[j]) >= 0);
        assert(pv.take(0) =~= Seq::<ProcessMemoryV>::empty());
    }
    let mut acc: u64 = 0;
    let mut i: usize = 0;
    let n = processes.len();
    while i < n
        invariant
            0 <= i <= n == processes@.len(),
            pv == processes.deep_view(),
            sum_by(pv, shared_dirty_of()) <= u64::MAX,
            forall|j: int| 0 <= j < pv.len() ==> #[trigger] shared_dirty_of()(pv[j]) >= 0,
            acc == sum_by(pv.take(i as int), shared_dirty_of()),
        decreases n - i,
    {
        proof {
            assert(processes[i as int]@ == pv[i as int]);
            lemma_sum_by_take_step(pv, shared_dirty_of(), i as int);
            lemma_sum_by_prefix_bound(pv, shared_dirty_of(), i + 1);
        }
        acc = acc + processes[i].shared_dirty_kb;
        i += 1;
    }
    proof {
        assert(pv.take(n as int) =~= pv);
    }
    acc
}

fn total_by_private(processes: &Vec<ProcessMemory>) -> (r: u64)
    requires
        sum_private(processes.deep_view()) <= u64::MAX,
    ensures
        r == sum_private(processes.deep_view()),
{
    let ghost pv = processes.deep_view();
    proof {
        assert(forall|j: int| 0 <= j < pv.len() ==> #[trigger] private_of()(pv[j]) >= 0);
        assert(pv.take(0) =~= Seq::<ProcessMemoryV>::empty());
    }
    let mut acc: u64 = 0;
    let mut i: usize = 0;
    let n = processes.len();
    while i < n
        invariant
            0 <= i <= n == processes@.len(),
            pv == processes.deep_view(),
            sum_by(pv, private_of()) <= u64::MAX,
            forall|j: int| 0 <= j < pv.len() ==> #[trigger] private_of()(pv[j]) >= 0,
            acc == sum_by(pv.take(i as int), private_of()),
        decreases n - i,
    {
        proof {
            assert(processes[i as int]@ == pv[i as int]);
            lemma_sum_by_take_step(pv, private_of(), i as int);
            lemma_sum_by_prefix_bound(pv, private_of(), i + 1);
            lemma_sum_by_element_bound(pv, private_of(), i as int);
        }
        acc = acc + (processes[i].private_clean_kb + processes[i].private_dirty_kb);
        i += 1;
    }
    proof {
        assert(pv.take(n as int) =~= pv);
    }
    acc
}


/// Tests at run time the machine limits under which a snapshot can be
/// analyzed, exactly the analyzer's precondition, so that a caller holding
/// an arbitrary snapshot can establish it before handing the snapshot over.
pub fn snapshot_within_limits(snapshot: &MemorySnapshot) -> (r: bool)
    ensures
        r == snapshot_ok(snapshot.processes.deep_view(), snapshot.system),
{
    let ghost pv = snapshot.processes.deep_view();
    proof {
        assert(forall|j: int| 0 <= j < pv.len() ==> #[trigger] pss_of()(pv[j]) >= 0);
        assert(forall|j: int| 0 <= j < pv.len() ==> #[trigger] rss_of()(pv[j]) >= 0);
        assert(forall|j: int| 0 <= j < pv.len() ==> #[trigger] shared_of()(pv[j]) >= 0);
        assert(forall|j: int| 0 <= j < pv.len() ==> #[trigger] shared_clean_of()(pv[j]) >= 0);
        assert(forall|j: int| 0 <= j < pv.len() ==> #[trigger] shared_dirty_of()(pv[j]) >= 0);
        assert(forall|j: int| 0 <= j < pv.len() ==> #[trigger] private_of()(pv[j]) >= 0);
        assert(pv.take(0) =~= Seq::<ProcessMemoryV>::empty());
    }
    let max = u64::MAX as u128;
    let mut rss: u128 = 0;
    let mut pss: u128 = 0;
    let mut shared: u128 = 0;
    let mut shared_clean: u128 = 0;
    let mut shared_dirty: u128 = 0;
    let mut private: u128 = 0;
    let mut i: usize = 0;
    let processes = &snapshot.processes;
    let n = processes.len();
    while i < n
        invariant
            0 <= i <= n == processes@.len(),
            pv == processes.deep_view(),
            pv == snapshot.processes.deep_view(),
            max == u64::MAX as u128,
            forall|j: int| 0 <= j < i ==> #[trigger] pv[j].pss_kb <= i64::MAX,
            rss == sum_by(pv.take(i as int), rss_of()) && rss <= max,
            pss == sum_by(pv.take(i as int), pss_of()) && pss <= max,
            shared == sum_by(pv.take(i as int), shared_of()) && shared <= max,
            shared_clean == sum_by(pv.take(i as int), shared_clean_of()) && shared_clean <= max,
            shared_dirty == sum_by(pv.take(i as int), shared_dirty_of()) && shared_dirty <= max,
            private == sum_by(pv.take(i as int), private_of()) && private <= max,
            forall|j: int| 0 <= j < pv.len() ==> #[trigger] pss_of()(pv[j]) >= 0,
            forall|j: int| 0 <= j < pv.len() ==> #[trigger] rss_of()(pv[j]) >= 0,
            forall|j: int| 0 <= j < pv.len() ==> #[trigger] shared_of()(pv[j]) >= 0,
            forall|j: int| 0 <= j < pv.len() ==> #[trigger] shared_clean_of()(pv[j]) >= 0,
            forall|j: int| 0 <= j < pv.len() ==> #[trigger] shared_dirty_of()(pv[j]) >= 0,
            forall|j: int| 0 <= j < pv.len() ==> #[trigger] private_of()(pv[j]) >= 0,
        decreases n - i,
    {
        let p = &processes[i];
        proof {
            assert(p@ == pv[i as int]);
            lemma_sum_by_take_step(pv, rss_of(), i as int);
            lemma_sum_by_take_step(pv, pss_of(), i as int);
            lemma_sum_by_take_step(pv, shared_of(), i as int);
            lemma_sum_by_take_step(pv, shared_clean_of(), i as int);
            lemma_sum_by_take_step(pv, shared_dirty_of(), i as int);
            lemma_sum_by_take_step(pv, private_of(), i as int);
        }
        if p.pss_kb > i64::MAX as u64 {
            proof {
                assert(pv[i as int].pss_kb > i64::MAX);
                assert(!snapshot_ok(pv, snapshot.system));
            }
            return false;
        }
        rss = rss + p.rss_kb as u128;
        pss = pss + p.pss_kb as u128;
        shared = shared + (p.shared_clean_kb as u128 + p.shared_dirty_kb as u128);
        shared_clean = shared_clean + p.shared_clean_kb as u128;
        shared_dirty = shared_dirty + p.shared_dirty_kb as u128;
        private = private + (p.private_clean_kb as u128 + p.private_dirty_kb as u128);
        if rss > max || pss > max || shared > max || shared_clean > max || shared_dirty > max
            || private > max {
            proof {
                lemma_sum_by_prefix_bound(pv, rss_of(), i + 1);
                lemma_sum_by_prefix_bound(pv, pss_of(), i + 1);
                lemma_sum_by_prefix_bound(pv, shared_of(), i + 1);
                lemma_sum_by_prefix_bound(pv, shared_clean_of(), i + 1);
                lemma_sum_by_prefix_bound(pv, shared_dirty_of(), i + 1);
                lemma_sum_by_prefix_bound(pv, private_of(), i + 1);
                assert(rss > max ==> sum_rss(pv) > u64::MAX);
                assert(pss > max ==> sum_pss(pv) > u64::MAX);
                assert(shared > max ==> sum_shared(pv) > u64::MAX);
                assert(shared_clean > max ==> sum_shared_clean(pv) > u64::MAX);
                assert(shared_dirty > max ==> sum_shared_dirty(pv) > u64::MAX);
                assert(private > max ==> sum_private(pv) > u64::MAX);
                assert(!snapshot_ok(pv, snapshot.system));
            }
            return false;
        }
        i += 1;
    }
    proof {
        assert(pv.take(n as int) =~= pv);
    }
    if rss > 0 && pss > rss {
        return false;
    }
    let sys = &snapshot.system;
    let accounted: u128 = private + sys.cached_kb as u128 + sys.buffers_kb as u128
        + sys.free_kb as u128 + sys.slab_kb as u128 + sys.page_tables_kb as u128;
    accounted <= max
}

// ---------------------------------------------------------------------------
// Analysis laws
// ---------------------------------------------------------------------------


/// The derived shared and private sizes of one process are the literal sums
/// of their clean and dirty component pairs.
pub proof fn lemma_split_is_component_sum(p: ProcessMemoryV, h: Map<u32, u64>)
    requires
        p.shared_clean_kb + p.shared_dirty_kb <= u64::MAX,
        p.private_clean_kb + p.private_dirty_kb <= u64::MAX,
    ensures
        stats_of(p, h).shared_kb == p.shared_clean_kb + p.shared_dirty_kb,
        stats_of(p, h).private_kb == p.private_clean_kb + p.private_dirty_kb,
{
}

/// A process id that has no baseline entry is analyzed with a delta of zero,
/// whatever its proportional size.
pub proof fn lemma_first_observation_delta_zero(p: ProcessMemoryV, h: Map<u32, u64>)
    requires
        !h.contains_key(p.pid),
    ensures
        stats_of(p, h).pss_delta_kb == 0,
{
}

/// The baseline built from a process list maps an id to the proportional
/// size of its last listed record.
pub proof fn lemma_history_tracks_last(s: Seq<ProcessMemoryV>, i: int)
    requires
        0 <= i < s.len(),
        forall|j: int| i < j < s.len() ==> s[j].pid != s[i].pid,
    ensures
        history_of(s).contains_key(s[i].pid),
        history_of(s)[s[i].pid] == s[i].pss_kb,
    decreases s.len(),
{
    if i == s.len() - 1 {
    } else {
        let d = s.drop_last();
        assert(forall|j: int| i < j < d.len() ==> d[j].pid != d[i].pid);
        lemma_history_tracks_last(d, i);
        assert(s.last().pid != s[i].pid);
    }
}

/// A process id that a cycle's list does not hold is absent from the
/// baseline built from that list: history is replaced wholesale, never
/// merged.
pub proof fn lemma_absent_pid_has_no_history(s: Seq<ProcessMemoryV>, pid: u32)
    requires
        forall|i: int| 0 <= i < s.len() ==> s[i].pid != pid,
    ensures
        !history_of(s).contains_key(pid),
    decreases s.len(),
{
    if s.len() > 0 {
        let d = s.drop_last();
        assert(forall|i: int| 0 <= i < d.len() ==> d[i].pid != pid);
        lemma_absent_pid_has_no_history(d, pid);
        assert(s.last().pid != pid);
    }
}

/// Across two cycles, a process's delta is exactly the signed change of its
/// proportional size against its last record of the previous cycle.
pub proof fn lemma_delta_across_cycles(prev: Seq<ProcessMemoryV>, i: int, p: ProcessMemoryV)
    requires
        0 <= i < prev.len(),
        forall|j: int| i < j < prev.len() ==> prev[j].pid != prev[i].pid,
        p.pid == prev[i].pid,
        p.pss_kb <= i64::MAX,
        prev[i].pss_kb <= i64::MAX,
    ensures
        stats_of(p, history_of(prev)).pss_delta_kb == p.pss_kb - prev[i].pss_kb,
{
    lemma_history_tracks_last(prev, i);
}

/// A process id present in one cycle and absent from the next analyzes as
/// first-seen when it reappears later: the middle cycle's baseline does not
/// hold it, so its delta is zero.
pub proof fn lemma_vanished_pid_reappears_as_new(
    middle: Seq<ProcessMemoryV>,
    p: ProcessMemoryV,
)
    requires
        forall|i: int| 0 <= i < middle.len() ==> middle[i].pid != p.pid,
    ensures
        stats_of(p, history_of(middle)).pss_delta_kb == 0,
{
    lemma_absent_pid_has_no_history(middle, p.pid);
    lemma_first_observation_delta_zero(p, history_of(middle));
}

/// The memory map reconciles: the seven additive categories sum exactly to
/// total memory whenever the accounted categories do not exceed it, and the
/// kernel residual clamps to zero when they do.
pub proof fn lemma_memory_map_reconciles(sys: SystemMemory, procs: Seq<ProcessMemoryV>)
    requires
        sum_private(procs) + sys.cached_kb + sys.buffers_kb + sys.free_kb + sys.slab_kb
            + sys.page_tables_kb <= u64::MAX,
    ensures
        ({
            let m = memory_map_of(sys, procs);
            let accounted = sum_private(procs) + sys.cached_kb + sys.buffers_kb + sys.free_kb
                + sys.slab_kb + sys.page_tables_kb;
            &&& accounted <= sys.total_kb ==> m.kernel_kb + m.process_private_kb + m.cache_kb
                + m.buffers_kb + m.free_kb + m.slab_kb + m.page_tables_kb == sys.total_kb
            &&& accounted > sys.total_kb ==> m.kernel_kb == 0
        }),
{
    assert(forall|j: int| 0 <= j < procs.len() ==> #[trigger] private_of()(procs[j]) >= 0);
    lemma_sum_by_nonneg(procs, private_of());
}

/// The sharing efficiency is zero when nothing is resident, whatever the
/// proportional sizes say.
pub proof fn lemma_sharing_efficiency_zero_without_resident(procs: Seq<ProcessMemoryV>)
    requires
        sum_rss(procs) == 0,
    ensures
        shared_stats_of(procs).saved_by_sharing_kb == 0,
        shared_stats_of(procs).sharing_efficiency_permille == 0,
{
}

/// Swap accounting: used swap is total minus free swap when free does not
/// exceed total, and zero otherwise.
pub proof fn lemma_swap_used(sys: SystemMemory, procs: Seq<ProcessMemoryV>)
    ensures
        sys.swap_free_kb <= sys.swap_total_kb ==> system_stats_of(sys, procs).swap_used_kb
            == sys.swap_total_kb - sys.swap_free_kb,
        sys.swap_free_kb > sys.swap_total_kb ==> system_stats_of(sys, procs).swap_used_kb == 0,
{
}

} // verus!
