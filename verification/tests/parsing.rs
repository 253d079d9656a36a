use memlens::collector::{
    make_process_name, parse_node_name, parse_numa_node, parse_process_memory,
    parse_system_memory,
};
use memlens::text::{parse_u32_token, parse_u64_or_zero, split_lines, tokenize, trim_bytes, u32_to_dec};

#[test]
fn system_total_is_read_exactly() {
    let text = b"MemTotal: 16000000 kB\nMemFree: 4000000 kB\n";
    let m = parse_system_memory(text);
    assert_eq!(m.total_kb, 16000000);
    assert_eq!(m.free_kb, 4000000);
}

#[test]
fn system_total_read_among_unknown_labels() {
    let text = b"Bogus: 7 kB\nMemTotal: 16000000 kB\nHugePages_Total: 0\n";
    let m = parse_system_memory(text);
    assert_eq!(m.total_kb, 16000000);
}

#[test]
fn system_counters_all_fields() {
    let text = b"MemTotal: 100 kB\nMemFree: 90 kB\nMemAvailable: 80 kB\nBuffers: 7 kB\n\
Cached: 6 kB\nSwapTotal: 5 kB\nSwapFree: 4 kB\nSlab: 3 kB\nPageTables: 2 kB\n";
    let m = parse_system_memory(text);
    assert_eq!(m.total_kb, 100);
    assert_eq!(m.free_kb, 90);
    assert_eq!(m.available_kb, 80);
    assert_eq!(m.buffers_kb, 7);
    assert_eq!(m.cached_kb, 6);
    assert_eq!(m.swap_total_kb, 5);
    assert_eq!(m.swap_free_kb, 4);
    assert_eq!(m.slab_kb, 3);
    assert_eq!(m.page_tables_kb, 2);
}

#[test]
fn system_counters_are_order_independent_and_last_wins() {
    let a = parse_system_memory(b"MemFree: 9 kB\nMemTotal: 100 kB\n");
    let b = parse_system_memory(b"MemTotal: 100 kB\nMemFree: 9 kB\n");
    assert_eq!(a, b);
    let c = parse_system_memory(b"MemTotal: 1 kB\nMemTotal: 2 kB\n");
    assert_eq!(c.total_kb, 2);
}

#[test]
fn malformed_value_reads_as_zero() {
    let m = parse_system_memory(b"MemTotal: abc kB\nMemFree: 12x kB\nSlab:\n");
    assert_eq!(m.total_kb, 0);
    assert_eq!(m.free_kb, 0);
    assert_eq!(m.slab_kb, 0);
}

#[test]
fn out_of_range_value_reads_as_zero() {
    let m = parse_system_memory(b"MemTotal: 99999999999999999999999 kB\n");
    assert_eq!(m.total_kb, 0);
    let m2 = parse_system_memory(b"MemTotal: 18446744073709551615 kB\n");
    assert_eq!(m2.total_kb, u64::MAX);
}

#[test]
fn process_breakdown_all_fields() {
    let text = b"Rss: 1200 kB\nPss: 1000 kB\nShared_Clean: 300 kB\nShared_Dirty: 100 kB\n\
Private_Clean: 500 kB\nPrivate_Dirty: 300 kB\nSwap: 50 kB\nAnonymous: 77 kB\n";
    let p = parse_process_memory(42, b"it".to_vec(), text);
    assert_eq!(p.pid, 42);
    assert_eq!(p.name, b"it".to_vec());
    assert_eq!(p.rss_kb, 1200);
    assert_eq!(p.pss_kb, 1000);
    assert_eq!(p.shared_clean_kb, 300);
    assert_eq!(p.shared_dirty_kb, 100);
    assert_eq!(p.private_clean_kb, 500);
    assert_eq!(p.private_dirty_kb, 300);
    assert_eq!(p.swap_kb, 50);
}

#[test]
fn process_breakdown_missing_fields_default_to_zero() {
    let p = parse_process_memory(1, b"x".to_vec(), b"Rss: 10 kB\n");
    assert_eq!(p.rss_kb, 10);
    assert_eq!(p.pss_kb, 0);
    assert_eq!(p.swap_kb, 0);
}

#[test]
fn process_name_is_trimmed_short_name() {
    let name = make_process_name(10, &Some(b"  bash\n".to_vec()));
    assert_eq!(name, b"bash".to_vec());
}

#[test]
fn process_name_falls_back_to_bracketed_pid() {
    let name = make_process_name(1234, &None);
    assert_eq!(name, b"[1234]".to_vec());
    let name0 = make_process_name(0, &None);
    assert_eq!(name0, b"[0]".to_vec());
}

#[test]
fn numa_counters_positional_fourth_token() {
    let text = b"Node 0 MemTotal: 8000000 kB\nNode 0 MemFree: 2000000 kB\n";
    let n = parse_numa_node(0, text);
    assert_eq!(n.node_id, 0);
    assert_eq!(n.mem_total_kb, 8000000);
    assert_eq!(n.mem_free_kb, 2000000);
    assert_eq!(n.mem_used_kb, 6000000);
}

#[test]
fn numa_used_is_taken_when_reported() {
    let text = b"Node 1 MemTotal: 100 kB\nNode 1 MemFree: 90 kB\nNode 1 MemUsed: 15 kB\n";
    let n = parse_numa_node(1, text);
    assert_eq!(n.mem_used_kb, 15);
}

#[test]
fn numa_used_never_goes_negative() {
    let text = b"Node 0 MemTotal: 100 kB\nNode 0 MemFree: 150 kB\n";
    let n = parse_numa_node(0, text);
    assert_eq!(n.mem_used_kb, 0);
}

#[test]
fn numa_short_lines_are_skipped() {
    let text = b"MemTotal: 9 kB\nNode 0 MemTotal: 44 kB\n";
    let n = parse_numa_node(0, text);
    assert_eq!(n.mem_total_kb, 44);
}

#[test]
fn node_names_are_matched_strictly() {
    assert_eq!(parse_node_name(b"node7"), Some(7));
    assert_eq!(parse_node_name(b"node0"), Some(0));
    assert_eq!(parse_node_name(b"node"), None);
    assert_eq!(parse_node_name(b"nodex"), None);
    assert_eq!(parse_node_name(b"cpu0"), None);
    assert_eq!(parse_node_name(b"no"), None);
}

#[test]
fn unsigned_token_parsing_edges() {
    assert_eq!(parse_u64_or_zero(b"0"), 0);
    assert_eq!(parse_u64_or_zero(b"+17"), 17);
    assert_eq!(parse_u64_or_zero(b"-17"), 0);
    assert_eq!(parse_u64_or_zero(b""), 0);
    assert_eq!(parse_u64_or_zero(b"+"), 0);
    assert_eq!(parse_u32_token(b"4294967295"), Some(u32::MAX));
    assert_eq!(parse_u32_token(b"4294967296"), None);
    assert_eq!(parse_u32_token(b"12ab"), None);
    assert_eq!(parse_u32_token(b""), None);
}

#[test]
fn trim_strips_both_ends() {
    assert_eq!(trim_bytes(b" \t a b \n"), b"a b".to_vec());
    assert_eq!(trim_bytes(b"\n\n"), Vec::<u8>::new());
    assert_eq!(trim_bytes(b"x"), b"x".to_vec());
}

#[test]
fn decimal_rendering() {
    assert_eq!(u32_to_dec(0), b"0".to_vec());
    assert_eq!(u32_to_dec(9), b"9".to_vec());
    assert_eq!(u32_to_dec(1234567890), b"1234567890".to_vec());
    assert_eq!(u32_to_dec(u32::MAX), b"4294967295".to_vec());
}

#[test]
fn lines_split_on_line_feeds_without_trailing_empty() {
    let lines = split_lines(b"a\n\nbc\n");
    assert_eq!(lines, vec![b"a".to_vec(), b"".to_vec(), b"bc".to_vec()]);
    assert_eq!(split_lines(b""), Vec::<Vec<u8>>::new());
    assert_eq!(split_lines(b"x"), vec![b"x".to_vec()]);
}

#[test]
fn tokens_split_on_runs_of_whitespace() {
    let toks = tokenize(b"  MemTotal: \t 16000000   kB\r");
    assert_eq!(
        toks,
        vec![b"MemTotal:".to_vec(), b"16000000".to_vec(), b"kB".to_vec()]
    );
    assert_eq!(tokenize(b"   "), Vec::<Vec<u8>>::new());
}
