//! Building one point-in-time memory snapshot from raw kernel-exposed text.
//!
//! The collector owns no I/O: the caller reads the system counter text, the
//! per-locality directory entries and the per-process directory entries, and
//! hands them over as plain bytes.  Everything that gives those bytes meaning
//! — the permissive counter parsing, the locality and process enumeration
//! rules, and the sorting of locality nodes — is defined and proved here.

use vstd::prelude::*;

use crate::text::{
    bytes_eq, contains_bytes, contains_seq, dec_digits_of, lines_of, parse_u32_token,
    parse_u64_or_zero, split_lines, tokenize, tokens_of, trim_bytes, trim_of, u32_result,
    u32_to_dec, u64_of_token,
};

verus! {

broadcast use vstd::std_specs::hash::group_hash_axioms;

// ---------------------------------------------------------------------------
// Raw records
// ---------------------------------------------------------------------------

/// Raw per-process memory record, all sizes in kB.
#[derive(Debug, Clone, PartialEq, Eq)]
pub struct ProcessMemory {
    pub pid: u32,
    pub name: Vec<u8>,
    pub rss_kb: u64,
    pub pss_kb: u64,
    pub shared_clean_kb: u64,
    pub shared_dirty_kb: u64,
    pub private_clean_kb: u64,
    pub private_dirty_kb: u64,
    pub swap_kb: u64,
}

/// The mathematical value of a [`ProcessMemory`] record.
pub struct ProcessMemoryV {
    pub pid: u32,
    pub name: Seq<u8>,
    pub rss_kb: u64,
    pub pss_kb: u64,
    pub shared_clean_kb: u64,
    pub shared_dirty_kb: u64,
    pub private_clean_kb: u64,
    pub private_dirty_kb: u64,
    pub swap_kb: u64,
}

impl View for ProcessMemory {
    type V = ProcessMemoryV;

    open spec fn view(&self) -> ProcessMemoryV {
        ProcessMemoryV {
            pid: self.pid,
            name: self.name@,
            rss_kb: self.rss_kb,
            pss_kb: self.pss_kb,
            shared_clean_kb: self.shared_clean_kb,
            shared_dirty_kb: self.shared_dirty_kb,
            private_clean_kb: self.private_clean_kb,
            private_dirty_kb: self.private_dirty_kb,
            swap_kb: self.swap_kb,
        }
    }
}

impl DeepView for ProcessMemory {
    type V = ProcessMemoryV;

    open spec fn deep_view(&self) -> ProcessMemoryV {
        self.view()
    }
}

/// Raw system-wide memory counters, all in kB.
#[derive(Debug, Clone, Copy, PartialEq, Eq, Structural)]
pub struct SystemMemory {
    pub total_kb: u64,
    pub free_kb: u64,
    pub available_kb: u64,
    pub buffers_kb: u64,
    pub cached_kb: u64,
    pub swap_total_kb: u64,
    pub swap_free_kb: u64,
    pub slab_kb: u64,
    pub page_tables_kb: u64,
}

/// Raw per-locality memory counters, in kB.
#[derive(Debug, Clone, Copy, PartialEq, Eq, Structural)]
pub struct NumaNode {
    pub node_id: u32,
    pub mem_total_kb: u64,
    pub mem_free_kb: u64,
    pub mem_used_kb: u64,
}

/// One immutable, point-in-time snapshot of the host's memory state.
#[derive(Debug, Clone, PartialEq, Eq)]
pub struct MemorySnapshot {
    pub processes: Vec<ProcessMemory>,
    pub system: SystemMemory,
    pub numa_nodes: Vec<NumaNode>,
}

/// Subtraction that bottoms out at zero instead of wrapping.
pub open spec fn sat_sub_u64(a: u64, b: u64) -> u64 {
    if a >= b {
        (a - b) as u64
    } else {
        0
    }
}

// ---------------------------------------------------------------------------
// Labels
// ---------------------------------------------------------------------------

pub open spec fn lbl_mem_total() -> Seq<u8> {
    seq![
        'M' as u8,
        'e' as u8,
        'm' as u8,
        'T' as u8,
        'o' as u8,
        't' as u8,
        'a' as u8,
        'l' as u8,
        ':' as u8,
    ]
}

pub open spec fn lbl_mem_free() -> Seq<u8> {
    seq!['M' as u8, 'e' as u8, 'm' as u8, 'F' as u8, 'r' as u8, 'e' as u8, 'e' as u8, ':' as u8]
}

pub open spec fn lbl_mem_available() -> Seq<u8> {
    seq![
        'M' as u8,
        'e' as u8,
        'm' as u8,
        'A' as u8,
        'v' as u8,
        'a' as u8,
        'i' as u8,
        'l' as u8,
        'a' as u8,
        'b' as u8,
        'l' as u8,
        'e' as u8,
        ':' as u8,
    ]
}

pub open spec fn lbl_buffers() -> Seq<u8> {
    seq!['B' as u8, 'u' as u8, 'f' as u8, 'f' as u8, 'e' as u8, 'r' as u8, 's' as u8, ':' as u8]
}

pub open spec fn lbl_cached() -> Seq<u8> {
    seq!['C' as u8, 'a' as u8, 'c' as u8, 'h' as u8, 'e' as u8, 'd' as u8, ':' as u8]
}

pub open spec fn lbl_swap_total() -> Seq<u8> {
    seq![
        'S' as u8,
        'w' as u8,
        'a' as u8,
        'p' as u8,
        'T' as u8,
        'o' as u8,
        't' as u8,
        'a' as u8,
        'l' as u8,
        ':' as u8,
    ]
}

pub open spec fn lbl_swap_free() -> Seq<u8> {
    seq![
        'S' as u8,
        'w' as u8,
        'a' as u8,
        'p' as u8,
        'F' as u8,
        'r' as u8,
        'e' as u8,
        'e' as u8,
        ':' as u8,
    ]
}

pub open spec fn lbl_slab() -> Seq<u8> {
    seq!['S' as u8, 'l' as u8, 'a' as u8, 'b' as u8, ':' as u8]
}

pub open spec fn lbl_page_tables() -> Seq<u8> {
    seq![
        'P' as u8,
        'a' as u8,
        'g' as u8,
        'e' as u8,
        'T' as u8,
        'a' as u8,
        'b' as u8,
        'l' as u8,
        'e' as u8,
        's' as u8,
        ':' as u8,
    ]
}

pub open spec fn lbl_mem_used() -> Seq<u8> {
    seq!['M' as u8, 'e' as u8, 'm' as u8, 'U' as u8, 's' as u8, 'e' as u8, 'd' as u8, ':' as u8]
}

pub open spec fn lbl_rss() -> Seq<u8> {
    seq!['R' as u8, 's' as u8, 's' as u8, ':' as u8]
}

pub open spec fn lbl_pss() -> Seq<u8> {
    seq!['P' as u8, 's' as u8, 's' as u8, ':' as u8]
}

pub open spec fn lbl_shared_clean() -> Seq<u8> {
    seq![
        'S' as u8,
        'h' as u8,
        'a' as u8,
        'r' as u8,
        'e' as u8,
        'd' as u8,
        '_' as u8,
        'C' as u8,
        'l' as u8,
        'e' as u8,
        'a' as u8,
        'n' as u8,
        ':' as u8,
    ]
}

pub open spec fn lbl_shared_dirty() -> Seq<u8> {
    seq![
        'S' as u8,
        'h' as u8,
        'a' as u8,
        'r' as u8,
        'e' as u8,
        'd' as u8,
        '_' as u8,
        'D' as u8,
        'i' as u8,
        'r' as u8,
        't' as u8,
        'y' as u8,
        ':' as u8,
    ]
}

pub open spec fn lbl_private_clean() -> Seq<u8> {
    seq![
        'P' as u8,
        'r' as u8,
        'i' as u8,
        'v' as u8,
        'a' as u8,
        't' as u8,
        'e' as u8,
        '_' as u8,
        'C' as u8,
        'l' as u8,
        'e' as u8,
        'a' as u8,
        'n' as u8,
        ':' as u8,
    ]
}

pub open spec fn lbl_private_dirty() -> Seq<u8> {
    seq![
        'P' as u8,
        'r' as u8,
        'i' as u8,
        'v' as u8,
        'a' as u8,
        't' as u8,
        'e' as u8,
        '_' as u8,
        'D' as u8,
        'i' as u8,
        'r' as u8,
        't' as u8,
        'y' as u8,
        ':' as u8,
    ]
}

pub open spec fn lbl_swap() -> Seq<u8> {
    seq!['S' as u8, 'w' as u8, 'a' as u8, 'p' as u8, ':' as u8]
}

pub open spec fn lbl_node() -> Seq<u8> {
    seq!['n' as u8, 'o' as u8, 'd' as u8, 'e' as u8]
}

// ---------------------------------------------------------------------------
// System counter parsing
// ---------------------------------------------------------------------------

pub open spec fn zero_system() -> SystemMemory {
    SystemMemory {
        total_kb: 0,
        free_kb: 0,
        available_kb: 0,
        buffers_kb: 0,
        cached_kb: 0,
        swap_total_kb: 0,
        swap_free_kb: 0,
        slab_kb: 0,
        page_tables_kb: 0,
    }
}

/// How one line of the system counter text updates the record: the first
/// token selects the field, the second token is read permissively, lines with
/// fewer than two tokens and unrecognized labels change nothing.
pub open spec fn apply_system_line(m: SystemMemory, line: Seq<u8>) -> SystemMemory {
    let toks = tokens_of(line);
    if toks.len() < 2 {
        m
    } else {
        let v = u64_of_token(toks[1]);
        if toks[0] == lbl_mem_total() {
            SystemMemory { total_kb: v, ..m }
        } else if toks[0] == lbl_mem_free() {
            SystemMemory { free_kb: v, ..m }
        } else if toks[0] == lbl_mem_available() {
            SystemMemory { available_kb: v, ..m }
        } else if toks[0] == lbl_buffers() {
            SystemMemory { buffers_kb: v, ..m }
        } else if toks[0] == lbl_cached() {
            SystemMemory { cached_kb: v, ..m }
        } else if toks[0] == lbl_swap_total() {
            SystemMemory { swap_total_kb: v, ..m }
        } else if toks[0] == lbl_swap_free() {
            SystemMemory { swap_free_kb: v, ..m }
        } else if toks[0] == lbl_slab() {
            SystemMemory { slab_kb: v, ..m }
        } else if toks[0] == lbl_page_tables() {
            SystemMemory { page_tables_kb: v, ..m }
        } else {
            m
        }
    }
}

pub open spec fn system_after(m: SystemMemory, ls: Seq<Seq<u8>>) -> SystemMemory
    decreases ls.len(),
{
    if ls.len() == 0 {
        m
    } else {
        system_after(apply_system_line(m, ls[0]), ls.drop_first())
    }
}

/// The record read from a whole system counter text: every line applied in
/// order to the all-zero record, so that a later occurrence of a label wins.
pub open spec fn system_memory_of(text: Seq<u8>) -> SystemMemory {
    system_after(zero_system(), lines_of(text))
}

/// Parses the system counter text.
pub fn parse_system_memory(text: &[u8]) -> (m: SystemMemory)
    ensures
        m == system_memory_of(text@),
{
    let l_total: Vec<u8> = vec![
        'M' as u8,
        'e' as u8,
        'm' as u8,
        'T' as u8,
        'o' as u8,
        't' as u8,
        'a' as u8,
        'l' as u8,
        ':' as u8,
    ];
    let l_free: Vec<u8> = vec![
        'M' as u8,
        'e' as u8,
        'm' as u8,
        'F' as u8,
        'r' as u8,
        'e' as u8,
        'e' as u8,
        ':' as u8,
    ];
    let l_avail: Vec<u8> = vec![
        'M' as u8,
        'e' as u8,
        'm' as u8,
        'A' as u8,
        'v' as u8,
        'a' as u8,
        'i' as u8,
        'l' as u8,
        'a' as u8,
        'b' as u8,
        'l' as u8,
        'e' as u8,
        ':' as u8,
    ];
    let l_buffers: Vec<u8> = vec![
        'B' as u8,
        'u' as u8,
        'f' as u8,
        'f' as u8,
        'e' as u8,
        'r' as u8,
        's' as u8,
        ':' as u8,
    ];
    let l_cached: Vec<u8> = vec![
        'C' as u8,
        'a' as u8,
        'c' as u8,
        'h' as u8,
        'e' as u8,
        'd' as u8,
        ':' as u8,
    ];
    let l_swap_total: Vec<u8> = vec![
        'S' as u8,
        'w' as u8,
        'a' as u8,
        'p' as u8,
        'T' as u8,
        'o' as u8,
        't' as u8,
        'a' as u8,
        'l' as u8,
        ':' as u8,
    ];
    let l_swap_free: Vec<u8> = vec![
        'S' as u8,
        'w' as u8,
        'a' as u8,
        'p' as u8,
        'F' as u8,
        'r' as u8,
        'e' as u8,
        'e' as u8,
        ':' as u8,
    ];
    let l_slab: Vec<u8> = vec!['S' as u8, 'l' as u8, 'a' as u8, 'b' as u8, ':' as u8];
    let l_page_tables: Vec<u8> = vec![
        'P' as u8,
        'a' as u8,
        'g' as u8,
        'e' as u8,
        'T' as u8,
        'a' as u8,
        'b' as u8,
        'l' as u8,
        'e' as u8,
        's' as u8,
        ':' as u8,
    ];
    proof {
        assert(l_total@ =~= lbl_mem_total());
        assert(l_free@ =~= lbl_mem_free());
        assert(l_avail@ =~= lbl_mem_available());
        assert(l_buffers@ =~= lbl_buffers());
        assert(l_cached@ =~= lbl_cached());
        assert(l_swap_total@ =~= lbl_swap_total());
        assert(l_swap_free@ =~= lbl_swap_free());
        assert(l_slab@ =~= lbl_slab());
        assert(l_page_tables@ =~= lbl_page_tables());
    }
    let lines = split_lines(text);
    let ghost ls = lines_of(text@);
    let mut m = SystemMemory {
        total_kb: 0,
        free_kb: 0,
        available_kb: 0,
        buffers_kb: 0,
        cached_kb: 0,
        swap_total_kb: 0,
        swap_free_kb: 0,
        slab_kb: 0,
        page_tables_kb: 0,
    };
    let mut i: usize = 0;
    proof {
        assert(ls.skip(0) =~~= ls);
    }
    let n = lines.len();
    while i < n
        invariant
            0 <= i <= n,
            n == lines@.len(),
            lines.deep_view() == ls,
            l_total@ == lbl_mem_total(),
            l_free@ == lbl_mem_free(),
            l_avail@ == lbl_mem_available(),
            l_buffers@ == lbl_buffers(),
            l_cached@ == lbl_cached(),
            l_swap_total@ == lbl_swap_total(),
            l_swap_free@ == lbl_swap_free(),
            l_slab@ == lbl_slab(),
            l_page_tables@ == lbl_page_tables(),
            system_after(m, ls.skip(i as int)) == system_after(zero_system(), ls),
        decreases n - i,
    {
        let ghost m0 = m;
        let toks = tokenize(lines[i].as_slice());
        proof {
            assert(lines[i as int]@ == ls[i as int]);
            assert(toks.deep_view() == tokens_of(ls[i as int]));
        }
        let ghost toks_v = tokens_of(ls[i as int]);
        if toks.len() >= 2 {
            proof {
                assert(toks[0]@ == toks_v[0]);
                assert(toks[1]@ == toks_v[1]);
            }
            let v = parse_u64_or_zero(toks[1].as_slice());
            if bytes_eq(toks[0].as_slice(), l_total.as_slice()) {
                m.total_kb = v;
            } else if bytes_eq(toks[0].as_slice(), l_free.as_slice()) {
                m.free_kb = v;
            } else if bytes_eq(toks[0].as_slice(), l_avail.as_slice()) {
                m.available_kb = v;
            } else if bytes_eq(toks[0].as_slice(), l_buffers.as_slice()) {
                m.buffers_kb = v;
            } else if bytes_eq(toks[0].as_slice(), l_cached.as_slice()) {
                m.cached_kb = v;
            } else if bytes_eq(toks[0].as_slice(), l_swap_total.as_slice()) {
                m.swap_total_kb = v;
            } else if bytes_eq(toks[0].as_slice(), l_swap_free.as_slice()) {
                m.swap_free_kb = v;
            } else if bytes_eq(toks[0].as_slice(), l_slab.as_slice()) {
                m.slab_kb = v;
            } else if bytes_eq(toks[0].as_slice(), l_page_tables.as_slice()) {
                m.page_tables_kb = v;
            }
        }
        proof {
            assert(m == apply_system_line(m0, ls[i as int]));
            assert(ls.skip(i as int)[0] == ls[i as int]);
            assert(ls.skip(i as int).drop_first() =~~= ls.skip(i + 1));
            assert(system_after(m0, ls.skip(i as int)) == system_after(m, ls.skip(i + 1)));
        }
        i += 1;
    }
    proof {
        assert(ls.skip(n as int) =~~= Seq::<Seq<u8>>::empty());
    }
    m
}

// ---------------------------------------------------------------------------
// Per-process breakdown parsing
// ---------------------------------------------------------------------------

/// How one line of a process's memory breakdown updates the record; the same
/// permissive policy as the system counters, with the process's own keys.
pub open spec fn apply_proc_line(p: ProcessMemoryV, line: Seq<u8>) -> ProcessMemoryV {
    let toks = tokens_of(line);
    if toks.len() < 2 {
        p
    } else {
        let v = u64_of_token(toks[1]);
        if toks[0] == lbl_rss() {
            ProcessMemoryV { rss_kb: v, ..p }
        } else if toks[0] == lbl_pss() {
            ProcessMemoryV { pss_kb: v, ..p }
        } else if toks[0] == lbl_shared_clean() {
            ProcessMemoryV { shared_clean_kb: v, ..p }
        } else if toks[0] == lbl_shared_dirty() {
            ProcessMemoryV { shared_dirty_kb: v, ..p }
        } else if toks[0] == lbl_private_clean() {
            ProcessMemoryV { private_clean_kb: v, ..p }
        } else if toks[0] == lbl_private_dirty() {
            ProcessMemoryV { private_dirty_kb: v, ..p }
        } else if toks[0] == lbl_swap() {
            ProcessMemoryV { swap_kb: v, ..p }
        } else {
            p
        }
    }
}

pub open spec fn proc_after(p: ProcessMemoryV, ls: Seq<Seq<u8>>) -> ProcessMemoryV
    decreases ls.len(),
{
    if ls.len() == 0 {
        p
    } else {
        proc_after(apply_proc_line(p, ls[0]), ls.drop_first())
    }
}

pub open spec fn zero_proc(pid: u32, name: Seq<u8>) -> ProcessMemoryV {
    ProcessMemoryV {
        pid: pid,
        name: name,
        rss_kb: 0,
        pss_kb: 0,
        shared_clean_kb: 0,
        shared_dirty_kb: 0,
        private_clean_kb: 0,
        private_dirty_kb: 0,
        swap_kb: 0,
    }
}

/// The record read from one process's memory breakdown text.
pub open spec fn proc_memory_of(pid: u32, name: Seq<u8>, text: Seq<u8>) -> ProcessMemoryV {
    proc_after(zero_proc(pid, name), lines_of(text))
}

/// The display name of a process: its short-name text trimmed of whitespace,
/// or `[<pid>]` when that text is unavailable.
pub open spec fn proc_name_of(pid: u32, comm: Option<Seq<u8>>) -> Seq<u8> {
    match comm {
        Some(c) => trim_of(c),
        None => seq!['[' as u8] + dec_digits_of(pid as int) + seq![']' as u8],
    }
}

/// Resolves a process's display name.
pub fn make_process_name(pid: u32, comm: &Option<Vec<u8>>) -> (r: Vec<u8>)
    ensures
        r@ == proc_name_of(pid, comm.deep_view()),
{
    match comm {
        Some(c) => {
            proof {
                assert(c.deep_view() =~= c@);
            }
            trim_bytes(c.as_slice())
        },
        None => {
            let mut r: Vec<u8> = Vec::new();
            r.push('[' as u8);
            let digits = u32_to_dec(pid);
            let mut k: usize = 0;
            while k < digits.len()
                invariant
                    0 <= k <= digits@.len(),
                    digits@ == dec_digits_of(pid as int),
                    r@ =~= seq!['[' as u8] + digits@.take(k as int),
                decreases digits@.len() - k,
            {
                r.push(digits[k]);
                k += 1;
            }
            r.push(']' as u8);
            proof {
                assert(digits@.take(digits@.len() as int) =~= digits@);
                assert(r@ =~= proc_name_of(pid, comm.deep_view()));
            }
            r
        },
    }
}

/// Parses one process's memory breakdown text.
pub fn parse_process_memory(pid: u32, name: Vec<u8>, text: &[u8]) -> (p: ProcessMemory)
    ensures
        p@ == proc_memory_of(pid, name@, text@),
{
    let l_rss: Vec<u8> = vec!['R' as u8, 's' as u8, 's' as u8, ':' as u8];
    let l_pss: Vec<u8> = vec!['P' as u8, 's' as u8, 's' as u8, ':' as u8];
    let l_shared_clean: Vec<u8> = vec![
        'S' as u8,
        'h' as u8,
        'a' as u8,
        'r' as u8,
        'e' as u8,
        'd' as u8,
        '_' as u8,
        'C' as u8,
        'l' as u8,
        'e' as u8,
        'a' as u8,
        'n' as u8,
        ':' as u8,
    ];
    let l_shared_dirty: Vec<u8> = vec![
        'S' as u8,
        'h' as u8,
        'a' as u8,
        'r' as u8,
        'e' as u8,
        'd' as u8,
        '_' as u8,
        'D' as u8,
        'i' as u8,
        'r' as u8,
        't' as u8,
        'y' as u8,
        ':' as u8,
    ];
    let l_private_clean: Vec<u8> = vec![
        'P' as u8,
        'r' as u8,
        'i' as u8,
        'v' as u8,
        'a' as u8,
        't' as u8,
        'e' as u8,
        '_' as u8,
        'C' as u8,
        'l' as u8,
        'e' as u8,
        'a' as u8,
        'n' as u8,
        ':' as u8,
    ];
    let l_private_dirty: Vec<u8> = vec![
        'P' as u8,
        'r' as u8,
        'i' as u8,
        'v' as u8,
        'a' as u8,
        't' as u8,
        'e' as u8,
        '_' as u8,
        'D' as u8,
        'i' as u8,
        'r' as u8,
        't' as u8,
        'y' as u8,
        ':' as u8,
    ];
    let l_swap: Vec<u8> = vec!['S' as u8, 'w' as u8, 'a' as u8, 'p' as u8, ':' as u8];
    proof {
        assert(l_rss@ =~= lbl_rss());
        assert(l_pss@ =~= lbl_pss());
        assert(l_shared_clean@ =~= lbl_shared_clean());
        assert(l_shared_dirty@ =~= lbl_shared_dirty());
        assert(l_private_clean@ =~= lbl_private_clean());
        assert(l_private_dirty@ =~= lbl_private_dirty());
        assert(l_swap@ =~= lbl_swap());
    }
    let lines = split_lines(text);
    let ghost ls = lines_of(text@);
    let mut p = ProcessMemory {
        pid: pid,
        name: name,
        rss_kb: 0,
        pss_kb: 0,
        shared_clean_kb: 0,
        shared_dirty_kb: 0,
        private_clean_kb: 0,
        private_dirty_kb: 0,
        swap_kb: 0,
    };
    let mut i: usize = 0;
    proof {
        assert(ls.skip(0) =~~= ls);
        assert(p@ == zero_proc(pid, p.name@));
    }
    let ghost name_v = p.name@;
    let n = lines.len();
    while i < n
        invariant
            0 <= i <= n,
            n == lines@.len(),
            lines.deep_view() == ls,
            p.name@ == name_v,
            p.pid == pid,
            l_rss@ == lbl_rss(),
            l_pss@ == lbl_pss(),
            l_shared_clean@ == lbl_shared_clean(),
            l_shared_dirty@ == lbl_shared_dirty(),
            l_private_clean@ == lbl_private_clean(),
            l_private_dirty@ == lbl_private_dirty(),
            l_swap@ == lbl_swap(),
            proc_after(p@, ls.skip(i as int)) == proc_after(zero_proc(pid, name_v), ls),
        decreases n - i,
    {
        let ghost p0 = p@;
        let toks = tokenize(lines[i].as_slice());
        proof {
            assert(lines[i as int]@ == ls[i as int]);
            assert(toks.deep_view() == tokens_of(ls[i as int]));
        }
        let ghost toks_v = tokens_of(ls[i as int]);
        if toks.len() >= 2 {
            proof {
                assert(toks[0]@ == toks_v[0]);
                assert(toks[1]@ == toks_v[1]);
            }
            let v = parse_u64_or_zero(toks[1].as_slice());
            if bytes_eq(toks[0].as_slice(), l_rss.as_slice()) {
                p.rss_kb = v;
            } else if bytes_eq(toks[0].as_slice(), l_pss.as_slice()) {
                p.pss_kb = v;
            } else if bytes_eq(toks[0].as_slice(), l_shared_clean.as_slice()) {
                p.shared_clean_kb = v;
            } else if bytes_eq(toks[0].as_slice(), l_shared_dirty.as_slice()) {
                p.shared_dirty_kb = v;
            } else if bytes_eq(toks[0].as_slice(), l_private_clean.as_slice()) {
                p.private_clean_kb = v;
            } else if bytes_eq(toks[0].as_slice(), l_private_dirty.as_slice()) {
                p.private_dirty_kb = v;
            } else if bytes_eq(toks[0].as_slice(), l_swap.as_slice()) {
                p.swap_kb = v;
            }
        }
        proof {
            assert(p@ == apply_proc_line(p0, ls[i as int]));
            assert(ls.skip(i as int)[0] == ls[i as int]);
            assert(ls.skip(i as int).drop_first() =~~= ls.skip(i + 1));
            assert(proc_after(p0, ls.skip(i as int)) == proc_after(p@, ls.skip(i + 1)));
        }
        i += 1;
    }
    proof {
        assert(ls.skip(n as int) =~~= Seq::<Seq<u8>>::empty());
    }
    p
}

// ---------------------------------------------------------------------------
// Per-locality counters
// ---------------------------------------------------------------------------

/// How one line of a locality's counter text updates the record: the line is
/// recognized by the substring it contains, and the value is read from its
/// fourth token; lines with fewer than four tokens change nothing.
pub open spec fn apply_numa_line(n: NumaNode, line: Seq<u8>) -> NumaNode {
    let toks = tokens_of(line);
    if toks.len() < 4 {
        n
    } else {
        let v = u64_of_token(toks[3]);
        if contains_seq(line, lbl_mem_total()) {
            NumaNode { mem_total_kb: v, ..n }
        } else if contains_seq(line, lbl_mem_free()) {
            NumaNode { mem_free_kb: v, ..n }
        } else if contains_seq(line, lbl_mem_used()) {
            NumaNode { mem_used_kb: v, ..n }
        } else {
            n
        }
    }
}

pub open spec fn numa_after(n: NumaNode, ls: Seq<Seq<u8>>) -> NumaNode
    decreases ls.len(),
{
    if ls.len() == 0 {
        n
    } else {
        numa_after(apply_numa_line(n, ls[0]), ls.drop_first())
    }
}

pub open spec fn zero_numa(id: u32) -> NumaNode {
    NumaNode { node_id: id, mem_total_kb: 0, mem_free_kb: 0, mem_used_kb: 0 }
}

/// The record read from one locality's counter text; when no used counter was
/// reported, used is derived as total minus free, never negative.
pub open spec fn numa_node_of(id: u32, text: Seq<u8>) -> NumaNode {
    let n = numa_after(zero_numa(id), lines_of(text));
    if n.mem_used_kb == 0 {
        NumaNode { mem_used_kb: sat_sub_u64(n.mem_total_kb, n.mem_free_kb), ..n }
    } else {
        n
    }
}

/// Parses one locality's counter text.
pub fn parse_numa_node(id: u32, text: &[u8]) -> (r: NumaNode)
    ensures
        r == numa_node_of(id, text@),
{
    let l_total: Vec<u8> = vec![
        'M' as u8,
        'e' as u8,
        'm' as u8,
        'T' as u8,
        'o' as u8,
        't' as u8,
        'a' as u8,
        'l' as u8,
        ':' as u8,
    ];
    let l_free: Vec<u8> = vec![
        'M' as u8,
        'e' as u8,
        'm' as u8,
        'F' as u8,
        'r' as u8,
        'e' as u8,
        'e' as u8,
        ':' as u8,
    ];
    let l_used: Vec<u8> = vec![
        'M' as u8,
        'e' as u8,
        'm' as u8,
        'U' as u8,
        's' as u8,
        'e' as u8,
        'd' as u8,
        ':' as u8,
    ];
    proof {
        assert(l_total@ =~= lbl_mem_total());
        assert(l_free@ =~= lbl_mem_free());
        assert(l_used@ =~= lbl_mem_used());
    }
    let lines = split_lines(text);
    let ghost ls = lines_of(text@);
    let mut node = NumaNode { node_id: id, mem_total_kb: 0, mem_free_kb: 0, mem_used_kb: 0 };
    let mut i: usize = 0;
    proof {
        assert(ls.skip(0) =~~= ls);
        assert(node == zero_numa(id));
    }
    let n = lines.len();
    while i < n
        invariant
            0 <= i <= n,
            n == lines@.len(),
            lines.deep_view() == ls,
            l_total@ == lbl_mem_total(),
            l_free@ == lbl_mem_free(),
            l_used@ == lbl_mem_used(),
            numa_after(node, ls.skip(i as int)) == numa_after(zero_numa(id), ls),
        decreases n - i,
    {
        let ghost n0 = node;
        let toks = tokenize(lines[i].as_slice());
        proof {
            assert(lines[i as int]@ == ls[i as int]);
            assert(toks.deep_view() == tokens_of(ls[i as int]));
        }
        let ghost toks_v = tokens_of(ls[i as int]);
        if toks.len() >= 4 {
            proof {
                assert(toks[3]@ == toks_v[3]);
            }
            let v = parse_u64_or_zero(toks[3].as_slice());
            if contains_bytes(lines[i].as_slice(), l_total.as_slice()) {
                node.mem_total_kb = v;
            } else if contains_bytes(lines[i].as_slice(), l_free.as_slice()) {
                node.mem_free_kb = v;
            } else if contains_bytes(lines[i].as_slice(), l_used.as_slice()) {
                node.mem_used_kb = v;
            }
        }
        proof {
            assert(node == apply_numa_line(n0, ls[i as int]));
            assert(ls.skip(i as int)[0] == ls[i as int]);
            assert(ls.skip(i as int).drop_first() =~~= ls.skip(i + 1));
            assert(numa_after(n0, ls.skip(i as int)) == numa_after(node, ls.skip(i + 1)));
        }
        i += 1;
    }
    proof {
        assert(ls.skip(n as int) =~~= Seq::<Seq<u8>>::empty());
    }
    if node.mem_used_kb == 0 {
        let used = if node.mem_total_kb >= node.mem_free_kb {
            node.mem_total_kb - node.mem_free_kb
        } else {
            0
        };
        node.mem_used_kb = used;
    }
    node
}

/// The locality id encoded in a directory entry name: the name must begin
/// with `node` and the remainder must be a well-formed unsigned id.
pub open spec fn node_id_of(name: Seq<u8>) -> Option<u32> {
    if name.len() >= 4 && name.subrange(0, 4) == lbl_node() {
        u32_result(name.subrange(4, name.len() as int))
    } else {
        None
    }
}

/// Reads a locality directory entry name.
pub fn parse_node_name(name: &[u8]) -> (r: Option<u32>)
    ensures
        r == node_id_of(name@),
{
    if name.len() < 4 {
        return None;
    }
    let l_node: Vec<u8> = vec!['n' as u8, 'o' as u8, 'd' as u8, 'e' as u8];
    proof {
        assert(l_node@ =~= lbl_node());
    }
    let mut prefix: Vec<u8> = Vec::new();
    let mut k: usize = 0;
    while k < 4
        invariant
            0 <= k <= 4 <= name@.len(),
            prefix@ =~= name@.subrange(0, k as int),
        decreases 4 - k,
    {
        prefix.push(name[k]);
        k += 1;
    }
    if !bytes_eq(prefix.as_slice(), l_node.as_slice()) {
        return None;
    }
    let mut rest: Vec<u8> = Vec::new();
    let mut j: usize = 4;
    while j < name.len()
        invariant
            4 <= j <= name@.len(),
            rest@ =~= name@.subrange(4, j as int),
        decreases name@.len() - j,
    {
        rest.push(name[j]);
        j += 1;
    }
    proof {
        assert(rest@ =~= name@.subrange(4, name@.len() as int));
    }
    parse_u32_token(rest.as_slice())
}

// ---------------------------------------------------------------------------
// Raw enumeration input
// ---------------------------------------------------------------------------

/// One entry of the locality enumeration root: its name, and its counter
/// text when that could be read.
pub struct NodeEntry {
    pub name: Vec<u8>,
    pub meminfo: Option<Vec<u8>>,
}

/// The mathematical value of a [`NodeEntry`].
pub struct NodeEntryV {
    pub name: Seq<u8>,
    pub meminfo: Option<Seq<u8>>,
}

impl View for NodeEntry {
    type V = NodeEntryV;

    open spec fn view(&self) -> NodeEntryV {
        NodeEntryV { name: self.name@, meminfo: self.meminfo.deep_view() }
    }
}

impl DeepView for NodeEntry {
    type V = NodeEntryV;

    open spec fn deep_view(&self) -> NodeEntryV {
        self.view()
    }
}

/// One entry of the process enumeration root: its name, its memory breakdown
/// text when that could be read, and its short-name text when that could be
/// read.
pub struct ProcEntry {
    pub name: Vec<u8>,
    pub smaps_rollup: Option<Vec<u8>>,
    pub comm: Option<Vec<u8>>,
}

/// The mathematical value of a [`ProcEntry`].
pub struct ProcEntryV {
    pub name: Seq<u8>,
    pub smaps_rollup: Option<Seq<u8>>,
    pub comm: Option<Seq<u8>>,
}

impl View for ProcEntry {
    type V = ProcEntryV;

    open spec fn view(&self) -> ProcEntryV {
        ProcEntryV {
            name: self.name@,
            smaps_rollup: self.smaps_rollup.deep_view(),
            comm: self.comm.deep_view(),
        }
    }
}

impl DeepView for ProcEntry {
    type V = ProcEntryV;

    open spec fn deep_view(&self) -> ProcEntryV {
        self.view()
    }
}

/// Everything one collection cycle reads from the host, as plain bytes.
/// `None` for the system counter text or the process listing means that the
/// source was unreadable; a `None` inside an entry means that only that
/// entry's sub-resource was unreadable.
pub struct CollectorInput {
    pub meminfo: Option<Vec<u8>>,
    pub node_entries: Option<Vec<NodeEntry>>,
    pub proc_entries: Option<Vec<ProcEntry>>,
}

/// The two fatal failures of a collection cycle.
#[derive(Debug, Clone, Copy, PartialEq, Eq, Structural)]
pub enum CollectError {
    /// The system counter source could not be read.
    SystemMemoryUnreadable,
    /// The process enumeration root could not be read.
    ProcessRootUnreadable,
}

// ---------------------------------------------------------------------------
// Locality enumeration and sorting
// ---------------------------------------------------------------------------

/// The locality records read from the enumeration, in enumeration order:
/// entries whose name carries no id and entries whose counter text was
/// unreadable are skipped.
pub open spec fn numa_list_of(entries: Seq<NodeEntryV>) -> Seq<NumaNode>
    decreases entries.len(),
{
    if entries.len() == 0 {
        Seq::empty()
    } else {
        let head: Seq<NumaNode> = match node_id_of(entries[0].name) {
            Some(id) => match entries[0].meminfo {
                Some(text) => seq![numa_node_of(id, text)],
                None => Seq::empty(),
            },
            None => Seq::empty(),
        };
        head + numa_list_of(entries.drop_first())
    }
}

/// Stable insertion of a node into a list: after every node whose id is not
/// larger, so that nodes with equal ids keep their enumeration order.
pub open spec fn insert_node_sorted(n: NumaNode, s: Seq<NumaNode>) -> Seq<NumaNode>
    decreases s.len(),
{
    if s.len() == 0 {
        seq![n]
    } else if s[0].node_id <= n.node_id {
        seq![s[0]] + insert_node_sorted(n, s.drop_first())
    } else {
        seq![n] + s
    }
}

/// The stable ascending-by-id ordering of a node list.
pub open spec fn sort_nodes_spec(s: Seq<NumaNode>) -> Seq<NumaNode>
    decreases s.len(),
{
    if s.len() == 0 {
        Seq::empty()
    } else {
        insert_node_sorted(s.last(), sort_nodes_spec(s.drop_last()))
    }
}

pub open spec fn nodes_sorted(s: Seq<NumaNode>) -> bool {
    forall|i: int, j: int| 0 <= i < j < s.len() ==> s[i].node_id <= s[j].node_id
}

proof fn lemma_insert_node_sorted_at(n: NumaNode, s: Seq<NumaNode>, p: int)
    requires
        0 <= p <= s.len(),
        forall|k: int| 0 <= k < p ==> s[k].node_id <= n.node_id,
        p < s.len() ==> s[p].node_id > n.node_id,
    ensures
        insert_node_sorted(n, s) == s.subrange(0, p) + seq![n] + s.subrange(p, s.len() as int),
    decreases p,
{
    if p == 0 {
        if s.len() == 0 {
            assert(insert_node_sorted(n, s) =~= s.subrange(0, 0) + seq![n] + s.subrange(
                0,
                s.len() as int,
            ));
        } else {
            assert(s[0].node_id > n.node_id);
            assert(insert_node_sorted(n, s) =~= s.subrange(0, 0) + seq![n] + s.subrange(
                0,
                s.len() as int,
            ));
        }
    } else {
        let d = s.drop_first();
        assert(d =~= s.subrange(1, s.len() as int));
        lemma_insert_node_sorted_at(n, d, p - 1);
        assert(s[0].node_id <= n.node_id);
        assert(insert_node_sorted(n, s) == seq![s[0]] + insert_node_sorted(n, d));
        assert(insert_node_sorted(n, s) =~= s.subrange(0, p) + seq![n] + s.subrange(
            p,
            s.len() as int,
        ));
    }
}

proof fn lemma_insert_node_keeps_sorted(n: NumaNode, s: Seq<NumaNode>)
    requires
        nodes_sorted(s),
    ensures
        nodes_sorted(insert_node_sorted(n, s)),
    decreases s.len(),
{
    if s.len() == 0 {
    } else if s[0].node_id <= n.node_id {
        let d = s.drop_first();
        assert(nodes_sorted(d));
        lemma_insert_node_keeps_sorted(n, d);
        let r = seq![s[0]] + insert_node_sorted(n, d);
        let rd = insert_node_sorted(n, d);
        assert forall|i: int, j: int| 0 <= i < j < r.len() implies r[i].node_id
            <= r[j].node_id by {
            if i > 0 {
                assert(rd[i - 1].node_id <= rd[j - 1].node_id);
            } else {
                lemma_insert_node_first(n, d);
                assert(r[j] == rd[j - 1]);
                if rd.len() > 0 {
                    assert(rd[0] == n || d.len() > 0 && rd[0] == d[0]);
                }
                if j - 1 > 0 {
                    assert(rd[0].node_id <= rd[j - 1].node_id);
                }
            }
        }
    } else {
        let r = seq![n] + s;
        assert forall|i: int, j: int| 0 <= i < j < r.len() implies r[i].node_id
            <= r[j].node_id by {
            if i > 0 {
                assert(s[i - 1].node_id <= s[j - 1].node_id);
            } else {
                if j - 1 > 0 {
                    assert(s[0].node_id <= s[j - 1].node_id);
                }
            }
        }
    }
}

/// The first element after insertion is the inserted node or the old first
/// element.
proof fn lemma_insert_node_first(n: NumaNode, s: Seq<NumaNode>)
    ensures
        insert_node_sorted(n, s).len() == s.len() + 1,
        s.len() == 0 ==> insert_node_sorted(n, s)[0] == n,
        s.len() > 0 ==> insert_node_sorted(n, s)[0] == n || insert_node_sorted(n, s)[0] == s[0],
    decreases s.len(),
{
    if s.len() > 0 && s[0].node_id <= n.node_id {
        lemma_insert_node_first(n, s.drop_first());
    }
}

/// The stable sort of any node list is sorted ascending by node id.
pub proof fn lemma_sort_nodes_sorted(s: Seq<NumaNode>)
    ensures
        nodes_sorted(sort_nodes_spec(s)),
        sort_nodes_spec(s).len() == s.len(),
    decreases s.len(),
{
    if s.len() > 0 {
        lemma_sort_nodes_sorted(s.drop_last());
        lemma_insert_node_keeps_sorted(s.last(), sort_nodes_spec(s.drop_last()));
        lemma_insert_node_first(s.last(), sort_nodes_spec(s.drop_last()));
    }
}

/// Sorts a node list ascending by node id, stably.
pub fn sort_nodes(v: Vec<NumaNode>) -> (r: Vec<NumaNode>)
    ensures
        r@ == sort_nodes_spec(v@),
        nodes_sorted(r@),
{
    let mut r: Vec<NumaNode> = Vec::new();
    let mut i: usize = 0;
    proof {
        assert(v@.take(0) =~= Seq::<NumaNode>::empty());
    }
    let n = v.len();
    while i < n
        invariant
            0 <= i <= n == v@.len(),
            r@ == sort_nodes_spec(v@.take(i as int)),
        decreases n - i,
    {
        let node = v[i];
        let mut p: usize = 0;
        while p < r.len() && r[p].node_id <= node.node_id
            invariant
                0 <= p <= r@.len(),
                forall|k: int| 0 <= k < p ==> r@[k].node_id <= node.node_id,
            decreases r@.len() - p,
        {
            p += 1;
        }
        proof {
            lemma_insert_node_sorted_at(node, r@, p as int);
        }
        let ghost r0 = r@;
        r.insert(p, node);
        proof {
            assert(r@ =~= r0.subrange(0, p as int) + seq![node] + r0.subrange(
                p as int,
                r0.len() as int,
            ));
            assert(r@ == insert_node_sorted(node, r0));
            assert(v@.take(i + 1).drop_last() =~= v@.take(i as int));
            assert(v@.take(i + 1).last() == v@[i as int]);
            assert(r@ == sort_nodes_spec(v@.take(i + 1)));
        }
        i += 1;
    }
    proof {
        assert(v@.take(n as int) =~= v@);
        lemma_sort_nodes_sorted(v@);
    }
    r
}

// ---------------------------------------------------------------------------
// Process enumeration
// ---------------------------------------------------------------------------

/// The process records read from the enumeration, in enumeration order:
/// entries whose name is not a process id and processes whose breakdown text
/// was unreadable are skipped; nothing else is.
pub open spec fn proc_list_of(entries: Seq<ProcEntryV>) -> Seq<ProcessMemoryV>
    decreases entries.len(),
{
    if entries.len() == 0 {
        Seq::empty()
    } else {
        let head: Seq<ProcessMemoryV> = match u32_result(entries[0].name) {
            Some(pid) => match entries[0].smaps_rollup {
                Some(text) => seq![
                    proc_memory_of(pid, proc_name_of(pid, entries[0].comm), text),
                ],
                None => Seq::empty(),
            },
            None => Seq::empty(),
        };
        head + proc_list_of(entries.drop_first())
    }
}

/// The set of process ids seen by the enumeration, readable or not.
pub open spec fn pid_set_of(entries: Seq<ProcEntryV>) -> Set<u32>
    decreases entries.len(),
{
    if entries.len() == 0 {
        Set::empty()
    } else {
        let rest = pid_set_of(entries.drop_first());
        match u32_result(entries[0].name) {
            Some(pid) => rest.insert(pid),
            None => rest,
        }
    }
}

// ---------------------------------------------------------------------------
// The collector
// ---------------------------------------------------------------------------

/// Produces one [`MemorySnapshot`] per call from the raw bytes the caller
/// read, and remembers which process ids the last enumeration saw.
pub struct Collector {
    known_pids: std::collections::HashSet<u32>,
}

impl Collector {
    /// The process ids seen by the most recent enumeration.
    pub closed spec fn known_pid_set(self) -> Set<u32> {
        self.known_pids@
    }

    pub fn new() -> (c: Collector)
        ensures
            c.known_pid_set() == Set::<u32>::empty(),
    {
        Collector { known_pids: std::collections::HashSet::new() }
    }

    /// Builds the snapshot for one cycle.  Fails exactly when the system
    /// counter text or the process listing was unreadable; an unreadable
    /// locality listing yields an empty node list, and unreadable per-entry
    /// sub-resources only omit that entry.
    pub fn collect(&mut self, input: CollectorInput) -> (r: Result<
        MemorySnapshot,
        CollectError,
    >)
        ensures
            input.meminfo is None ==> r == Err::<MemorySnapshot, CollectError>(
                CollectError::SystemMemoryUnreadable,
            ) && *final(self) == *old(self),
            input.meminfo is Some && input.proc_entries is None ==> r == Err::<
                MemorySnapshot,
                CollectError,
            >(CollectError::ProcessRootUnreadable) && *final(self) == *old(self),
            input.meminfo is Some && input.proc_entries is Some ==> (r matches Ok(snap) && {
                &&& snap.system == system_memory_of(input.meminfo.deep_view()->0)
                &&& snap.numa_nodes@ == (match input.node_entries {
                    Some(entries) => sort_nodes_spec(numa_list_of(entries.deep_view())),
                    None => Seq::<NumaNode>::empty(),
                })
                &&& nodes_sorted(snap.numa_nodes@)
                &&& snap.processes.deep_view() == proc_list_of(
                    input.proc_entries.deep_view()->0,
                )
                &&& final(self).known_pid_set() == pid_set_of(input.proc_entries.deep_view()->0)
            }),
    {
        let CollectorInput { meminfo, node_entries, proc_entries } = input;
        let system = match meminfo {
            None => {
                return Err(CollectError::SystemMemoryUnreadable);
            },
            Some(text) => {
                proof {
                    assert(text.deep_view() =~= text@);
                }
                parse_system_memory(text.as_slice())
            },
        };
        let numa_nodes = match node_entries {
            None => Vec::new(),
            Some(entries) => {
                let mut raw: Vec<NumaNode> = Vec::new();
                let mut i: usize = 0;
                let ghost ev = entries.deep_view();
                proof {
                    assert(ev.skip(0) =~= ev);
                }
                let n = entries.len();
                while i < n
                    invariant
                        0 <= i <= n == entries@.len(),
                        ev == entries.deep_view(),
                        raw@ + numa_list_of(ev.skip(i as int)) =~= numa_list_of(ev),
                    decreases n - i,
                {
                    let entry = &entries[i];
                    proof {
                        assert(entry@ == ev[i as int]);
                        assert(ev.skip(i as int)[0] == ev[i as int]);
                        assert(ev.skip(i as int).drop_first() =~= ev.skip(i + 1));
                    }
                    match parse_node_name(entry.name.as_slice()) {
                        Some(id) => {
                            match &entry.meminfo {
                                Some(text) => {
                                    let node = parse_numa_node(id, text.as_slice());
                                    raw.push(node);
                                    proof {
                                        assert(text.deep_view() =~= text@);
                                        assert(ev[i as int].meminfo matches Some(t)
                                            && node == numa_node_of(id, t));
                                        assert(raw@ + numa_list_of(ev.skip(i + 1))
                                            =~= numa_list_of(ev));
                                    }
                                },
                                None => {
                                    proof {
                                        assert(ev[i as int].meminfo is None);
                                        assert(raw@ + numa_list_of(ev.skip(i + 1))
                                            =~= numa_list_of(ev));
                                    }
                                },
                            }
                        },
                        None => {
                            proof {
                                assert(node_id_of(ev[i as int].name) is None);
                                assert(raw@ + numa_list_of(ev.skip(i + 1)) =~= numa_list_of(ev));
                            }
                        },
                    }
                    i += 1;
                }
                proof {
                    assert(ev.skip(n as int) =~= Seq::<NodeEntryV>::empty());
                    assert(raw@ =~= numa_list_of(ev));
                }
                sort_nodes(raw)
            },
        };
        let processes = match proc_entries {
            None => {
                return Err(CollectError::ProcessRootUnreadable);
            },
            Some(entries) => {
                let mut procs: Vec<ProcessMemory> = Vec::new();
                let mut current: std::collections::HashSet<u32> =
                    std::collections::HashSet::new();
                let mut i: usize = 0;
                let ghost ev = entries.deep_view();
                proof {
                    assert(ev.skip(0) =~= ev);
                    assert(current@ =~= Set::<u32>::empty());
                }
                let n = entries.len();
                while i < n
                    invariant
                        0 <= i <= n == entries@.len(),
                        ev == entries.deep_view(),
                        procs.deep_view() + proc_list_of(ev.skip(i as int)) =~= proc_list_of(ev),
                        current@.union(pid_set_of(ev.skip(i as int))) =~= pid_set_of(ev),
                    decreases n - i,
                {
                    let entry = &entries[i];
                    proof {
                        assert(entry@ == ev[i as int]);
                        assert(ev.skip(i as int)[0] == ev[i as int]);
                        assert(ev.skip(i as int).drop_first() =~= ev.skip(i + 1));
                    }
                    match parse_u32_token(entry.name.as_slice()) {
                        Some(pid) => {
                            current.insert(pid);
                            match &entry.smaps_rollup {
                                Some(text) => {
                                    let name = make_process_name(pid, &entry.comm);
                                    let pm = parse_process_memory(pid, name, text.as_slice());
                                    let ghost procs0 = procs.deep_view();
                                    procs.push(pm);
                                    proof {
                                        assert(text.deep_view() =~= text@);
                                        assert(procs.deep_view() =~= procs0.push(pm@));
                                        assert(ev[i as int].smaps_rollup matches Some(t) && pm@
                                            == proc_memory_of(
                                            pid,
                                            proc_name_of(pid, ev[i as int].comm),
                                            t,
                                        ));
                                        assert(procs.deep_view() + proc_list_of(ev.skip(i + 1))
                                            =~= proc_list_of(ev));
                                    }
                                },
                                None => {
                                    proof {
                                        assert(ev[i as int].smaps_rollup is None);
                                        assert(procs.deep_view() + proc_list_of(ev.skip(i + 1))
                                            =~= proc_list_of(ev));
                                    }
                                },
                            }
                            proof {
                                assert(current@.union(pid_set_of(ev.skip(i + 1))) =~= pid_set_of(
                                    ev,
                                ));
                            }
                        },
                        None => {
                            proof {
                                assert(u32_result(ev[i as int].name) is None);
                                assert(procs.deep_view() + proc_list_of(ev.skip(i + 1))
                                    =~= proc_list_of(ev));
                                assert(current@.union(pid_set_of(ev.skip(i + 1))) =~= pid_set_of(
                                    ev,
                                ));
                            }
                        },
                    }
                    i += 1;
                }
                proof {
                    assert(ev.skip(n as int) =~= Seq::<ProcEntryV>::empty());
                    assert(procs.deep_view() =~= proc_list_of(ev));
                    assert(current@ =~= pid_set_of(ev));
                }
                self.known_pids = current;
                procs
            },
        };
        Ok(MemorySnapshot { processes, system, numa_nodes })
    }
}

// ---------------------------------------------------------------------------
// Parsing laws
// ---------------------------------------------------------------------------

proof fn lemma_system_after_no_total(m: SystemMemory, ls: Seq<Seq<u8>>)
    requires
        forall|j: int|
            0 <= j < ls.len() ==> #[trigger] tokens_of(ls[j]).len() < 2 || tokens_of(ls[j])[0]
                != lbl_mem_total(),
    ensures
        system_after(m, ls).total_kb == m.total_kb,
    decreases ls.len(),
{
    if ls.len() > 0 {
        assert(tokens_of(ls[0]).len() < 2 || tokens_of(ls[0])[0] != lbl_mem_total());
        assert(apply_system_line(m, ls[0]).total_kb == m.total_kb);
        lemma_system_after_no_total(apply_system_line(m, ls[0]), ls.drop_first());
    }
}

proof fn lemma_system_after_total(m: SystemMemory, ls: Seq<Seq<u8>>, i: int)
    requires
        0 <= i < ls.len(),
        tokens_of(ls[i]).len() >= 2,
        tokens_of(ls[i])[0] == lbl_mem_total(),
        forall|j: int|
            i < j < ls.len() ==> #[trigger] tokens_of(ls[j]).len() < 2 || tokens_of(ls[j])[0]
                != lbl_mem_total(),
    ensures
        system_after(m, ls).total_kb == u64_of_token(tokens_of(ls[i])[1]),
    decreases ls.len(),
{
    let m1 = apply_system_line(m, ls[0]);
    if i == 0 {
        assert(m1.total_kb == u64_of_token(tokens_of(ls[0])[1]));
        assert(forall|j: int|
            0 <= j < ls.drop_first().len() ==> ls.drop_first()[j] == ls[j + 1]);
        lemma_system_after_no_total(m1, ls.drop_first());
    } else {
        assert(forall|j: int|
            0 <= j < ls.drop_first().len() ==> ls.drop_first()[j] == ls[j + 1]);
        lemma_system_after_total(m1, ls.drop_first(), i - 1);
    }
}

/// The system counter parse is order-independent per label: whatever else the
/// text holds, the total is read from the last line whose first token is the
/// total label, exactly as that line's second token.
pub proof fn lemma_system_total_from_line(text: Seq<u8>, i: int)
    requires
        0 <= i < lines_of(text).len(),
        tokens_of(lines_of(text)[i]).len() >= 2,
        tokens_of(lines_of(text)[i])[0] == lbl_mem_total(),
        forall|j: int|
            i < j < lines_of(text).len() ==> #[trigger] tokens_of(lines_of(text)[j]).len() < 2
                || tokens_of(lines_of(text)[j])[0] != lbl_mem_total(),
    ensures
        system_memory_of(text).total_kb == u64_of_token(tokens_of(lines_of(text)[i])[1]),
{
    lemma_system_after_total(zero_system(), lines_of(text), i);
}

} // verus!
