use portkill::ports::{
    distinct_pids, listing_from_lsof, parse_lsof_listing, parse_parent_pid, parse_rss,
    ps_pid_argument, with_memory, PortEntry,
};
use std::collections::HashMap;

fn entry(port: u16, pid: u32, name: &str, address: &str, memory_kb: u64) -> PortEntry {
    PortEntry {
        port,
        pid,
        process_name: name.to_string(),
        address: address.to_string(),
        memory_kb,
    }
}

#[test]
fn listing_reads_blocks_and_dedupes_ipv4_ipv6() {
    let text = "p123\ncnode\nn*:3000\nn[::1]:3000\np456\ncGoogle Chrome Helper\nn127.0.0.1:5173\n";
    let entries = parse_lsof_listing(text);
    assert_eq!(
        entries,
        vec![
            entry(3000, 123, "node", "*", 0),
            entry(5173, 456, "Google Chrome Helper", "127.0.0.1", 0),
        ]
    );
}

#[test]
fn listing_keeps_names_with_spaces_and_colons_in_addresses() {
    let text = "p77\ncmy server: dev\nn[::1]:8080\nn[fe80::1%lo0]:9090\n";
    let entries = parse_lsof_listing(text);
    assert_eq!(
        entries,
        vec![
            entry(8080, 77, "my server: dev", "[::1]", 0),
            entry(9090, 77, "my server: dev", "[fe80::1%lo0]", 0),
        ]
    );
}

#[test]
fn listing_same_port_different_pids_both_kept() {
    let text = "p1\nca\nn*:80\np2\ncb\nn*:80\np1\nca\nn127.0.0.1:80\n";
    let entries = parse_lsof_listing(text);
    assert_eq!(entries, vec![entry(80, 1, "a", "*", 0), entry(80, 2, "b", "*", 0)]);
}

#[test]
fn listing_skips_network_names_without_a_valid_pid() {
    // No `p` line yet, then an unreadable pid: both leave pid 0.
    let text = "n*:1\npabc\ncx\nn*:2\np0\nn*:3\n";
    assert_eq!(parse_lsof_listing(text), vec![]);
}

#[test]
fn listing_skips_unreadable_ports() {
    let text = "p9\ncweb\nn*:http\nnnocolon\nn*:70000\nn*:\nn*:+443\n";
    assert_eq!(parse_lsof_listing(text), vec![entry(443, 9, "web", "*", 0)]);
}

#[test]
fn listing_new_process_block_clears_the_name() {
    let text = "p5\ncfirst\np6\nn*:22\n";
    assert_eq!(parse_lsof_listing(text), vec![entry(22, 6, "", "*", 0)]);
}

#[test]
fn listing_handles_crlf_and_other_tags() {
    let text = "p10\r\ncsshd\r\nf3\r\ntIPv4\r\nn*:22\r\n\r\nxjunk\n";
    assert_eq!(parse_lsof_listing(text), vec![entry(22, 10, "sshd", "*", 0)]);
}

#[test]
fn listing_first_char_non_ascii_is_ignored() {
    let text = "p3\nctool\nénope:1\nn*:4000";
    assert_eq!(parse_lsof_listing(text), vec![entry(4000, 3, "tool", "*", 0)]);
}

#[test]
fn listing_from_lsof_failed_blank_output_is_empty() {
    assert_eq!(listing_from_lsof(false, "  \n\t\n"), vec![]);
    assert_eq!(listing_from_lsof(false, ""), vec![]);
}

#[test]
fn listing_from_lsof_failed_with_output_still_parses() {
    assert_eq!(
        listing_from_lsof(false, "p8\ncx\nn*:8000\n"),
        vec![entry(8000, 8, "x", "*", 0)]
    );
    assert_eq!(
        listing_from_lsof(true, "p8\ncx\nn*:8000\n"),
        vec![entry(8000, 8, "x", "*", 0)]
    );
}

#[test]
fn distinct_pids_sorted_once_each() {
    let entries = vec![
        entry(1, 5, "a", "*", 0),
        entry(2, 3, "b", "*", 0),
        entry(3, 5, "a", "*", 0),
        entry(4, 9, "c", "*", 0),
    ];
    assert_eq!(distinct_pids(&entries), vec![3, 5, 9]);
    assert_eq!(distinct_pids(&vec![]), Vec::<u32>::new());
}

#[test]
fn pid_argument_joins_with_commas() {
    assert_eq!(ps_pid_argument(&vec![]), None);
    assert_eq!(ps_pid_argument(&vec![7]), Some("7".to_string()));
    assert_eq!(
        ps_pid_argument(&vec![3, 50, 4294967295]),
        Some("3,50,4294967295".to_string())
    );
}

#[test]
fn pid_argument_reads_back() {
    let pids = vec![0u32, 12, 345, 6789];
    let arg = ps_pid_argument(&pids).unwrap();
    let back: Vec<u32> = arg.split(',').map(|f| f.parse().unwrap()).collect();
    assert_eq!(back, pids);
}

#[test]
fn rss_table_reads_first_two_words_last_line_wins() {
    let text = "  123  4567\n  456    89 extra\nbad line\n789\n123 1\n 42 -5\n\u{3000}7\u{3000}8\n";
    let table = parse_rss(text);
    let mut expected = HashMap::new();
    expected.insert(123u32, 1u64);
    expected.insert(456u32, 89u64);
    expected.insert(7u32, 8u64);
    assert_eq!(table, expected);
}

#[test]
fn rss_sizes_beyond_u32_fit() {
    let table = parse_rss("1 18446744073709551615\n2 18446744073709551616\n");
    let mut expected = HashMap::new();
    expected.insert(1u32, u64::MAX);
    assert_eq!(table, expected);
}

#[test]
fn memory_filled_from_table_else_zero() {
    let entries = vec![entry(1, 5, "a", "*", 0), entry(2, 6, "b", "::", 0)];
    let mut table = HashMap::new();
    table.insert(5u32, 2048u64);
    let filled = with_memory(&entries, &table);
    assert_eq!(filled, vec![entry(1, 5, "a", "*", 2048), entry(2, 6, "b", "::", 0)]);
}

#[test]
fn parent_pid_reads_trimmed_number() {
    assert_eq!(parse_parent_pid("  4321\n"), Some(4321));
    assert_eq!(parse_parent_pid("2"), Some(2));
}

#[test]
fn parent_pid_none_for_init_and_garbage() {
    assert_eq!(parse_parent_pid("    1\n"), None);
    assert_eq!(parse_parent_pid("0"), None);
    assert_eq!(parse_parent_pid(""), None);
    assert_eq!(parse_parent_pid("  \n"), None);
    assert_eq!(parse_parent_pid("12 34"), None);
    assert_eq!(parse_parent_pid("99999999999"), None);
}
