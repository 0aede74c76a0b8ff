use portkill_core::{
    account_name, apply_filter, check_confirmation, check_table_read, check_table_size,
    collect_tcp_v4, collect_tcp_v6, collect_udp_v4, collect_udp_v6, command_line_query,
    contains_any, detect_process_type, file_name, pids_to_describe, remember_process_info, group_by_process, ipv4_from_dword, ipv6_to_string,
    list_filtered_ports, load_favorites, non_empty_text, normalize_favorites, parse_command,
    parse_filter_args, parse_find_args, parse_kill_args, parse_required_u16, parse_required_u32,
    pids_to_look_up, port_from_dword, process_entry_name, process_type_label, push_entry,
    query_process_details, query_process_info, record_process_name, save_favorites,
    sort_entries, string_from_utf16_lossy, table_header, table_row, table_rule, tcp_state_name, termination_deny_reason,
    truncate, truncation_is_clean, wide_null, CliCommand, PortEntry, PortFilter,
    ProcessDetailRequest, ProcessInfo, ProcessLookup, Tcp6Row, TcpRow, Udp6Row, UdpRow,
};
use std::collections::HashMap;

fn entry(protocol: &str, port: u16, state: &str, pid: u32, process: &str) -> PortEntry {
    PortEntry {
        protocol: protocol.to_string(),
        local_addr: "127.0.0.1".to_string(),
        local_port: port,
        remote_addr: "-".to_string(),
        remote_port: 0,
        state: state.to_string(),
        pid,
        process: process.to_string(),
        path: format!("C:\\Tools\\{process}"),
        user: "LOCAL\\tester".to_string(),
        command: format!("{process} --port {port}"),
        process_type: detect_process_type(process, &format!("C:\\Tools\\{process}"), ""),
        can_terminate: true,
        deny_reason: String::new(),
    }
}

fn strings(args: &[&str]) -> Vec<String> {
    args.iter().map(|s| s.to_string()).collect()
}

fn v6(segments: [u16; 8]) -> [u8; 16] {
    let mut out = [0u8; 16];
    for (i, s) in segments.iter().enumerate() {
        out[2 * i] = (s >> 8) as u8;
        out[2 * i + 1] = (s & 0xff) as u8;
    }
    out
}

fn info(process: &str) -> ProcessInfo {
    ProcessInfo {
        process: process.to_string(),
        path: format!("C:\\bin\\{process}"),
        user: String::new(),
        command: String::new(),
    }
}

// ----- decoding -------------------------------------------------------------

#[test]
fn port_uses_low_word_in_network_order() {
    assert_eq!(port_from_dword(0xFFFF_0050), 0x5000);
    assert_eq!(port_from_dword(0), 0);
    assert_eq!(port_from_dword(0x0100), 1);
}

#[test]
fn port_byte_swap_round_trips() {
    for p in [0u16, 1, 80, 443, 3000, 8080, 65535] {
        let word = ((p % 256) as u32) * 256 + (p / 256) as u32;
        assert_eq!(port_from_dword(word), p);
    }
}

#[test]
fn names_every_tcp_state() {
    let names = [
        "CLOSED",
        "LISTENING",
        "SYN_SENT",
        "SYN_RECEIVED",
        "ESTABLISHED",
        "FIN_WAIT_1",
        "FIN_WAIT_2",
        "CLOSE_WAIT",
        "CLOSING",
        "LAST_ACK",
        "TIME_WAIT",
        "DELETE_TCB",
    ];
    for (i, n) in names.iter().enumerate() {
        assert_eq!(tcp_state_name(i as u32 + 1), *n);
    }
    assert_eq!(tcp_state_name(0), "UNKNOWN");
    assert_eq!(tcp_state_name(13), "UNKNOWN");
}

#[test]
fn formats_ipv4_octets_lowest_byte_first() {
    assert_eq!(ipv4_from_dword(0), "0.0.0.0");
    assert_eq!(ipv4_from_dword(0xffff_ffff), "255.255.255.255");
    assert_eq!(ipv4_from_dword(0x0101_a8c0), "192.168.1.1");
    assert_eq!(ipv4_from_dword(0x0a00_000a), "10.0.0.10");
}

#[test]
fn formats_ipv6_like_rfc5952() {
    assert_eq!(ipv6_to_string([0; 16], 0), "::");
    assert_eq!(ipv6_to_string(v6([0x2001, 0xdb8, 0, 0, 0, 0, 0, 1]), 0), "2001:db8::1");
    assert_eq!(ipv6_to_string(v6([0xfe80, 0, 0, 0, 0, 0, 0, 1]), 5), "fe80::1%5");
    assert_eq!(ipv6_to_string(v6([1, 0, 0, 1, 0, 0, 0, 1]), 0), "1:0:0:1::1");
    assert_eq!(ipv6_to_string(v6([1, 0, 0, 1, 0, 0, 1, 1]), 0), "1::1:0:0:1:1");
    assert_eq!(ipv6_to_string(v6([1, 0, 1, 0, 1, 0, 1, 0]), 0), "1:0:1:0:1:0:1:0");
    assert_eq!(ipv6_to_string(v6([1, 2, 3, 4, 5, 6, 7, 8]), 0), "1:2:3:4:5:6:7:8");
    assert_eq!(ipv6_to_string(v6([0xABCD, 0xEF01, 0, 0, 0, 0, 0, 0]), 0), "abcd:ef01::");
    assert_eq!(
        ipv6_to_string(v6([0, 0, 0, 0, 0, 0xffff, 0xc0a8, 0x0001]), 0),
        "::ffff:192.168.0.1"
    );
    assert_eq!(ipv6_to_string(v6([0, 0, 0, 0, 0, 0, 0xc0a8, 0x0001]), 0), "::c0a8:1");
}

#[test]
fn utf16_names_round_trip() {
    assert_eq!(wide_null("abc"), vec![97, 98, 99, 0]);
    assert_eq!(wide_null(""), vec![0]);
    for s in ["nginx.exe", "名字.exe", "emoji😀.exe", ""] {
        assert_eq!(process_entry_name(&wide_null(s)), s);
    }
}

#[test]
fn decodes_utf16_like_std() {
    let units: Vec<u16> = "C:\\Program Files\\名.exe".encode_utf16().collect();
    assert_eq!(
        string_from_utf16_lossy(&units),
        String::from_utf16_lossy(&units)
    );
    let odd = [0xD800u16, 0, 0xDFFF, 65];
    assert_eq!(string_from_utf16_lossy(&odd), String::from_utf16_lossy(&odd));
}

#[test]
fn utf16_decoding_stops_at_nul_and_replaces_lone_surrogates() {
    assert_eq!(process_entry_name(&[104, 105, 0, 120, 121]), "hi");
    assert_eq!(process_entry_name(&[104, 105]), "hi");
    assert_eq!(process_entry_name(&[0xD800, 97]), "\u{FFFD}a");
    assert_eq!(process_entry_name(&[0xDC00, 97]), "\u{FFFD}a");
    assert_eq!(process_entry_name(&[0xD83D, 0xDE00]), "😀");
    assert_eq!(process_entry_name(&[97, 0xD83D]), "a\u{FFFD}");
}

// ----- classification -------------------------------------------------------

#[test]
fn labels_process_kinds() {
    assert_eq!(process_type_label("web_server"), "Web Server");
    assert_eq!(process_type_label("database"), "Database");
    assert_eq!(process_type_label("development"), "Development");
    assert_eq!(process_type_label("system"), "System");
    assert_eq!(process_type_label("other"), "Other");
    assert_eq!(process_type_label("Web_Server"), "Other");
}

#[test]
fn earlier_categories_win_and_case_is_ignored() {
    assert_eq!(detect_process_type("nginx", "", "node"), "web_server");
    assert_eq!(detect_process_type("NGINX.EXE", "", ""), "web_server");
    assert_eq!(detect_process_type("x", "C:\\Redis\\server.exe", ""), "database");
    assert_eq!(detect_process_type("", "", ""), "other");
}

#[test]
fn contains_any_looks_for_each_needle() {
    assert!(contains_any("hello world", &["xyz", "lo w"]));
    assert!(!contains_any("hello", &["xyz", "Hello"]));
    assert!(!contains_any("hello", &[]));
    assert!(contains_any("hello", &[""]));
}

// ----- filtering ------------------------------------------------------------

#[test]
fn open_filter_keeps_everything() {
    let entries = vec![
        entry("TCP", 80, "LISTENING", 1, "a.exe"),
        entry("UDP", 53, "-", 2, "b.exe"),
    ];
    assert_eq!(apply_filter(entries.clone(), &PortFilter::default()), entries);
    let all = PortFilter {
        protocol: Some("ALL".to_string()),
        ..Default::default()
    };
    assert_eq!(apply_filter(entries.clone(), &all), entries);
    let empty = PortFilter {
        protocol: Some(String::new()),
        state: Some(String::new()),
        query: Some("   ".to_string()),
        ..Default::default()
    };
    assert_eq!(apply_filter(entries.clone(), &empty), entries);
}

#[test]
fn filtering_twice_changes_nothing() {
    let entries = vec![
        entry("TCP", 3000, "LISTENING", 10, "vite.exe"),
        entry("TCP", 3000, "ESTABLISHED", 11, "chrome.exe"),
        entry("UDP", 5353, "-", 12, "mdns.exe"),
    ];
    let f = PortFilter {
        listeners_only: true,
        ..Default::default()
    };
    let once = apply_filter(entries, &f);
    let twice = apply_filter(once.clone(), &f);
    assert_eq!(once, twice);
}

#[test]
fn filter_fields_ignore_case_and_trim_query() {
    let entries = vec![
        entry("TCP", 3000, "LISTENING", 10, "Vite.exe"),
        entry("UDP", 5353, "-", 12, "mdns.exe"),
    ];
    let by_protocol = PortFilter {
        protocol: Some("udp".to_string()),
        ..Default::default()
    };
    assert_eq!(apply_filter(entries.clone(), &by_protocol)[0].pid, 12);
    let by_state = PortFilter {
        state: Some("listening".to_string()),
        ..Default::default()
    };
    assert_eq!(apply_filter(entries.clone(), &by_state).len(), 1);
    let by_query = PortFilter {
        query: Some("  VITE  ".to_string()),
        ..Default::default()
    };
    assert_eq!(apply_filter(entries.clone(), &by_query)[0].pid, 10);
    let by_pid = PortFilter {
        query: Some("12".to_string()),
        ..Default::default()
    };
    // "12" is in pid 12 and in the address 127.0.0.1 of the other row.
    assert_eq!(apply_filter(entries.clone(), &by_pid).len(), 2);
    let by_label = PortFilter {
        query: Some("development".to_string()),
        ..Default::default()
    };
    assert_eq!(apply_filter(entries.clone(), &by_label)[0].pid, 10);
    let by_port = PortFilter {
        port: Some(5353),
        ..Default::default()
    };
    assert_eq!(apply_filter(entries.clone(), &by_port)[0].pid, 12);
    let nothing = PortFilter {
        query: Some("zzz".to_string()),
        ..Default::default()
    };
    assert!(apply_filter(entries, &nothing).is_empty());
}

#[test]
fn listeners_only_keeps_udp_and_listening_rows() {
    let entries = vec![
        entry("TCP", 1, "LISTENING", 1, "a"),
        entry("TCP", 2, "ESTABLISHED", 2, "b"),
        entry("UDP", 3, "-", 3, "c"),
        entry("TCP", 4, "TIME_WAIT", 4, "d"),
    ];
    let f = PortFilter {
        listeners_only: true,
        ..Default::default()
    };
    let kept: Vec<u32> = apply_filter(entries, &f).iter().map(|e| e.pid).collect();
    assert_eq!(kept, vec![1, 3]);
}

#[test]
fn list_filtered_ports_passes_errors_on() {
    let f = PortFilter::default();
    assert_eq!(
        list_filtered_ports(Err("boom".to_string()), &f),
        Err("boom".to_string())
    );
    let entries = vec![entry("TCP", 1, "LISTENING", 1, "a")];
    assert_eq!(list_filtered_ports(Ok(entries.clone()), &f), Ok(entries));
}

// ----- ordering and grouping -------------------------------------------------

#[test]
fn sorts_by_port_protocol_state_pid_and_keeps_ties() {
    let mut a = entry("UDP", 80, "-", 5, "a");
    a.local_addr = "first".to_string();
    let mut b = entry("UDP", 80, "-", 5, "a");
    b.local_addr = "second".to_string();
    let entries = vec![
        entry("TCP", 443, "LISTENING", 1, "x"),
        a.clone(),
        entry("TCP", 80, "LISTENING", 9, "y"),
        entry("TCP", 80, "ESTABLISHED", 9, "z"),
        b.clone(),
        entry("TCP", 80, "ESTABLISHED", 3, "w"),
    ];
    let sorted = sort_entries(entries);
    let order: Vec<(u16, String, String, u32)> = sorted
        .iter()
        .map(|e| (e.local_port, e.protocol.clone(), e.state.clone(), e.pid))
        .collect();
    assert_eq!(
        order,
        vec![
            (80, "TCP".to_string(), "ESTABLISHED".to_string(), 3),
            (80, "TCP".to_string(), "ESTABLISHED".to_string(), 9),
            (80, "TCP".to_string(), "LISTENING".to_string(), 9),
            (80, "UDP".to_string(), "-".to_string(), 5),
            (80, "UDP".to_string(), "-".to_string(), 5),
            (443, "TCP".to_string(), "LISTENING".to_string(), 1),
        ]
    );
    assert_eq!(sorted[3].local_addr, "first");
    assert_eq!(sorted[4].local_addr, "second");
}

#[test]
fn sorting_twice_changes_nothing() {
    let entries = vec![
        entry("UDP", 53, "-", 3, "c"),
        entry("TCP", 53, "LISTENING", 2, "b"),
        entry("TCP", 22, "LISTENING", 1, "a"),
        entry("TCP", 53, "LISTENING", 1, "d"),
    ];
    let once = sort_entries(entries);
    let twice = sort_entries(once.clone());
    assert_eq!(once, twice);
    let pids: Vec<u32> = once.iter().map(|e| e.pid).collect();
    assert_eq!(pids, vec![1, 1, 2, 3]);
}

#[test]
fn groups_in_key_order_and_each_entry_once() {
    let entries = vec![
        entry("TCP", 9000, "LISTENING", 7, "Zeta.exe"),
        entry("TCP", 80, "LISTENING", 2, "alpha.exe"),
        entry("UDP", 53, "-", 7, "zeta.exe"),
        entry("TCP", 81, "LISTENING", 1, "alpha.exe"),
        entry("TCP", 22, "LISTENING", 2, "alpha.exe"),
    ];
    let groups = group_by_process(&entries);
    let keys: Vec<(String, u32)> = groups
        .iter()
        .map(|g| (g.process.to_ascii_lowercase(), g.pid))
        .collect();
    assert_eq!(
        keys,
        vec![
            ("alpha.exe".to_string(), 1),
            ("alpha.exe".to_string(), 2),
            ("zeta.exe".to_string(), 7),
        ]
    );
    let total: usize = groups.iter().map(|g| g.ports.len()).sum();
    assert_eq!(total, entries.len());
    let alpha2 = &groups[1];
    assert_eq!(alpha2.ports[0].local_port, 22);
    assert_eq!(alpha2.ports[1].local_port, 80);
    // The group is described by its first endpoint.
    let zeta = &groups[2];
    assert_eq!(zeta.ports[0].local_port, 53);
    assert_eq!(zeta.process, "zeta.exe");
    assert!(group_by_process(&[]).is_empty());
}

// ----- favorites ------------------------------------------------------------

#[test]
fn favorites_are_kept_as_a_sorted_set() {
    assert_eq!(normalize_favorites(&[8080, 22, 8080, 443]), vec![22, 443, 8080]);
    assert_eq!(normalize_favorites(&[]), Vec::<u16>::new());
    let saved = save_favorites(&[5, 1, 5]);
    assert_eq!(saved.favorites, vec![1, 5]);
    let loaded = load_favorites(Some(saved));
    let again = load_favorites(Some(save_favorites(&loaded)));
    assert_eq!(loaded, again);
}

// ----- processes ------------------------------------------------------------

#[test]
fn deny_reasons_name_the_protected_process() {
    assert_eq!(
        termination_deny_reason(0, 0),
        Some("PID 0 是系统 Idle 进程，不允许结束。".to_string())
    );
    assert_eq!(
        termination_deny_reason(4, 9),
        Some("PID 4 是 Windows System 进程，不允许结束。".to_string())
    );
    assert_eq!(
        termination_deny_reason(9, 9),
        Some("不允许结束 portKill 自己的进程。".to_string())
    );
    assert_eq!(termination_deny_reason(10, 9), None);
}

#[test]
fn describes_processes_from_what_the_system_reports() {
    let names: HashMap<u32, String> = HashMap::new();
    let idle = query_process_info(0, "ignored".to_string(), &names);
    assert_eq!((idle.process.as_str(), idle.path.as_str()), ("Idle", ""));
    let system = query_process_info(4, String::new(), &names);
    assert_eq!(system.process, "System");
    assert_eq!(system.user, "NT AUTHORITY\\SYSTEM");
    let named = query_process_info(1234, "C:\\bin\\app.exe".to_string(), &names);
    assert_eq!(named.process, "app.exe");
    assert_eq!(named.path, "C:\\bin\\app.exe");
    let unknown = query_process_info(1234, String::new(), &names);
    assert_eq!(unknown.process, "PID 1234");
}

#[test]
fn snapshot_name_is_used_when_the_path_has_no_file_name() {
    let mut names: HashMap<u32, String> = HashMap::new();
    names.insert(77, "svc.exe".to_string());
    assert_eq!(query_process_info(77, "C:\\".to_string(), &names).process, "svc.exe");
    assert_eq!(query_process_info(77, "D:/tools/x.exe".to_string(), &names).process, "x.exe");
}

#[test]
fn file_names_of_windows_paths() {
    let f = |p: &str| file_name(p);
    assert_eq!(f("C:\\Program Files\\app\\node.exe"), Some("node.exe".to_string()));
    assert_eq!(f("C:/dir/a.txt"), Some("a.txt".to_string()));
    assert_eq!(f("C:\\dir\\sub\\"), Some("sub".to_string()));
    assert_eq!(f("C:\\dir\\."), Some("dir".to_string()));
    assert_eq!(f("C:\\dir\\.."), None);
    assert_eq!(f("C:\\"), None);
    assert_eq!(f("C:"), None);
    assert_eq!(f("C:foo"), Some("foo".to_string()));
    assert_eq!(f(""), None);
    assert_eq!(f("."), None);
    assert_eq!(f("./a"), Some("a".to_string()));
    assert_eq!(f("\\\\server\\share"), None);
    assert_eq!(f("\\\\server\\share\\x.exe"), Some("x.exe".to_string()));
    assert_eq!(f("\\\\?\\C:\\x\\y.exe"), Some("y.exe".to_string()));
    assert_eq!(f("\\\\.\\COM1"), None);
    assert_eq!(f("plain.exe"), Some("plain.exe".to_string()));
}

#[test]
fn prefixes_of_windows_paths() {
    let f = |p: &str| file_name(p);
    assert_eq!(f("\\\\x"), Some("x".to_string()));
    assert_eq!(f("\\\\server\\"), Some("server".to_string()));
    assert_eq!(f("//server/share/a.exe"), Some("a.exe".to_string()));
    assert_eq!(f("\\\\?\\UNC\\srv\\share"), None);
    assert_eq!(f("\\\\?\\UNC\\srv\\share\\a.exe"), Some("a.exe".to_string()));
    assert_eq!(f("\\\\?\\C:\\d/a.exe"), Some("d/a.exe".to_string()));
    assert_eq!(f("\\\\?\\C:\\d\\."), None);
    assert_eq!(f("\\\\?\\name\\b.exe"), Some("b.exe".to_string()));
    assert_eq!(f("\\\\.\\pipe\\x"), Some("x".to_string()));
    let names: HashMap<u32, String> = HashMap::new();
    assert_eq!(query_process_info(7, "\\\\x".to_string(), &names).process, "x");
    assert_eq!(query_process_info(7, "\\\\?\\UNC\\srv\\share".to_string(), &names).process, "PID 7");
}

#[test]
fn each_process_is_described_once() {
    let mut cache: HashMap<u32, ProcessInfo> = HashMap::new();
    cache.insert(5, info("known.exe"));
    assert_eq!(pids_to_describe(&cache, &[7, 5, 7, 8, 8, 9]), vec![7, 8, 9]);
    remember_process_info(&mut cache, 7, info("seven.exe"));
    remember_process_info(&mut cache, 5, info("other.exe"));
    assert_eq!(cache[&5].process, "known.exe");
    assert_eq!(cache[&7].process, "seven.exe");
    assert_eq!(pids_to_describe(&cache, &[7, 5]), Vec::<u32>::new());
}

#[test]
fn search_text_also_matches_the_state() {
    let entries = vec![
        entry("TCP", 3000, "LISTENING", 10, "a.exe"),
        entry("TCP", 3001, "ESTABLISHED", 11, "b.exe"),
    ];
    let f = PortFilter {
        query: Some("listening".to_string()),
        ..Default::default()
    };
    let kept = apply_filter(entries, &f);
    assert_eq!(kept.len(), 1);
    assert_eq!(kept[0].pid, 10);
}

#[test]
fn records_snapshot_names_unless_empty() {
    let mut names: HashMap<u32, String> = HashMap::new();
    record_process_name(&mut names, 7, &wide_null("a.exe"));
    record_process_name(&mut names, 8, &[0, 65]);
    assert_eq!(names.get(&7), Some(&"a.exe".to_string()));
    assert!(!names.contains_key(&8));
    record_process_name(&mut names, 7, &wide_null("b.exe"));
    assert_eq!(names.get(&7), Some(&"b.exe".to_string()));
}

#[test]
fn push_entry_marks_protected_processes() {
    let mut entries = Vec::new();
    push_entry(
        &mut entries,
        "TCP",
        "1.2.3.4".to_string(),
        80,
        "5.6.7.8".to_string(),
        443,
        "ESTABLISHED".to_string(),
        42,
        42,
        &info("nginx.exe"),
    );
    push_entry(
        &mut entries,
        "UDP",
        "0.0.0.0".to_string(),
        53,
        "-".to_string(),
        0,
        "-".to_string(),
        43,
        42,
        &info("dns.exe"),
    );
    assert_eq!(entries.len(), 2);
    assert!(!entries[0].can_terminate);
    assert_eq!(entries[0].deny_reason, "不允许结束 portKill 自己的进程。");
    assert_eq!(entries[0].process_type, "web_server");
    assert!(entries[1].can_terminate);
    assert_eq!(entries[1].deny_reason, "");
    assert_eq!(entries[1].path, "C:\\bin\\dns.exe");
}

#[test]
fn collects_rows_of_all_four_tables() {
    let mut infos = HashMap::new();
    infos.insert(10u32, info("node.exe"));
    let mut entries = Vec::new();
    collect_tcp_v4(
        &mut entries,
        &[TcpRow {
            state: 2,
            local_addr: 0x0100_007f,
            local_port: 0xB80B,
            remote_addr: 0,
            remote_port: 0,
            owning_pid: 10,
        }],
        1,
        &infos,
    );
    collect_tcp_v6(
        &mut entries,
        &[Tcp6Row {
            local_addr: v6([0, 0, 0, 0, 0, 0, 0, 1]),
            local_scope_id: 0,
            local_port: 0x901F,
            remote_addr: [0; 16],
            remote_scope_id: 3,
            remote_port: 0,
            state: 5,
            owning_pid: 10,
        }],
        1,
        &infos,
    );
    collect_udp_v4(
        &mut entries,
        &[UdpRow {
            local_addr: 0,
            local_port: 0x3500,
            owning_pid: 10,
        }],
        1,
        &infos,
    );
    collect_udp_v6(
        &mut entries,
        &[Udp6Row {
            local_addr: [0; 16],
            local_scope_id: 0,
            local_port: 0x3500,
            owning_pid: 10,
        }],
        1,
        &infos,
    );
    assert_eq!(entries.len(), 4);
    assert_eq!(entries[0].local_addr, "127.0.0.1");
    assert_eq!(entries[0].local_port, 3000);
    assert_eq!(entries[0].state, "LISTENING");
    assert_eq!(entries[1].local_addr, "::1");
    assert_eq!(entries[1].remote_addr, "::%3");
    assert_eq!(entries[1].local_port, 8080);
    assert_eq!(entries[1].state, "ESTABLISHED");
    assert_eq!(entries[2].protocol, "UDP");
    assert_eq!(entries[2].local_port, 53);
    assert_eq!(entries[2].remote_addr, "-");
    assert_eq!(entries[2].state, "-");
    assert_eq!(entries[3].local_addr, "::");
    assert!(entries.iter().all(|e| e.process == "node.exe" && e.process_type == "development"));
}

#[test]
fn table_status_codes_decide_what_happens() {
    assert_eq!(check_table_size("GetExtendedTcpTable", 122, 100), Ok(true));
    assert_eq!(check_table_size("GetExtendedTcpTable", 0, 0), Ok(false));
    assert_eq!(
        check_table_size("GetExtendedTcpTable", 87, 0),
        Err("GetExtendedTcpTable 预读取失败，错误码 87".to_string())
    );
    assert_eq!(check_table_read("GetExtendedUdpTable", 0), Ok(()));
    assert_eq!(
        check_table_read("GetExtendedUdpTable", 5),
        Err("GetExtendedUdpTable 读取失败，错误码 5".to_string())
    );
}

#[test]
fn details_use_lookups_once_per_pid() {
    let requests = vec![
        ProcessDetailRequest {
            pid: 50,
            process: "wrapper.exe".to_string(),
            path: String::new(),
        },
        ProcessDetailRequest {
            pid: 4,
            process: "System".to_string(),
            path: String::new(),
        },
        ProcessDetailRequest {
            pid: 50,
            process: "again.exe".to_string(),
            path: String::new(),
        },
        ProcessDetailRequest {
            pid: 60,
            process: "x.exe".to_string(),
            path: String::new(),
        },
    ];
    let mut lookups = HashMap::new();
    lookups.insert(
        50u32,
        ProcessLookup {
            user: Some("HOST\\me".to_string()),
            command: Some("python app.py".to_string()),
        },
    );
    lookups.insert(
        4u32,
        ProcessLookup {
            user: Some("ignored".to_string()),
            command: Some("ignored".to_string()),
        },
    );
    assert_eq!(pids_to_look_up(&requests), vec![50, 60]);
    let details = query_process_details(&requests, &lookups);
    assert_eq!(details.len(), 3);
    assert_eq!(details[0].pid, 50);
    assert_eq!(details[0].user, "HOST\\me");
    assert_eq!(details[0].command, "python app.py");
    assert_eq!(details[0].process_type, "development");
    assert_eq!(details[1].user, "NT AUTHORITY\\SYSTEM");
    assert_eq!(details[1].command, "");
    assert_eq!(details[2].pid, 60);
    assert_eq!(details[2].user, "");
    assert_eq!(details[2].process_type, "other");
}

#[test]
fn formats_accounts_queries_and_values() {
    assert_eq!(account_name("HOST", "me"), "HOST\\me");
    assert_eq!(account_name("", "me"), "me");
    assert_eq!(
        command_line_query(1234),
        "SELECT CommandLine FROM Win32_Process WHERE ProcessId = 1234"
    );
    assert_eq!(non_empty_text(String::new()), None);
    assert_eq!(non_empty_text("x".to_string()), Some("x".to_string()));
}

// ----- command line ---------------------------------------------------------

#[test]
fn picks_the_command() {
    assert_eq!(parse_command(&[]), Ok(CliCommand::Help));
    assert_eq!(parse_command(&strings(&["list"])), Ok(CliCommand::List));
    assert_eq!(parse_command(&strings(&["find", "--port"])), Ok(CliCommand::Find));
    assert_eq!(parse_command(&strings(&["kill"])), Ok(CliCommand::Kill));
    assert_eq!(parse_command(&strings(&["-h"])), Ok(CliCommand::Help));
    assert_eq!(parse_command(&strings(&["--help"])), Ok(CliCommand::Help));
    assert_eq!(parse_command(&strings(&["help"])), Ok(CliCommand::Help));
    assert_eq!(
        parse_command(&strings(&["LIST"])),
        Err("未知命令：LIST".to_string())
    );
}

#[test]
fn reads_list_options() {
    let (f, json) = parse_filter_args(&[]).unwrap();
    assert_eq!(f.protocol, Some("all".to_string()));
    assert!(!json);
    let (f, json) = parse_filter_args(&strings(&[
        "--json",
        "--protocol",
        "TCP",
        "--state",
        "listening",
        "--query",
        "Vite",
        "--listeners-only",
    ]))
    .unwrap();
    assert!(json);
    assert_eq!(f.protocol, Some("tcp".to_string()));
    assert_eq!(f.state, Some("LISTENING".to_string()));
    assert_eq!(f.query, Some("Vite".to_string()));
    assert!(f.listeners_only);
    assert_eq!(f.port, None);
    assert_eq!(
        parse_filter_args(&strings(&["--protocol"])),
        Err("--protocol 缺少值".to_string())
    );
    assert_eq!(
        parse_filter_args(&strings(&["--protocol", "icmp"])),
        Err("--protocol 只支持 tcp、udp、all".to_string())
    );
    assert_eq!(
        parse_filter_args(&strings(&["--state"])),
        Err("--state 缺少值".to_string())
    );
    assert_eq!(
        parse_filter_args(&strings(&["--query"])),
        Err("--query 缺少值".to_string())
    );
    assert_eq!(
        parse_filter_args(&strings(&["--port", "1"])),
        Err("list 不支持参数：--port".to_string())
    );
}

#[test]
fn reads_find_and_kill_options() {
    assert_eq!(
        parse_find_args(&strings(&["--port", "3000", "--json"])),
        Ok((3000, true))
    );
    assert_eq!(
        parse_find_args(&strings(&["--port", "1", "--port", "2"])),
        Ok((2, false))
    );
    assert_eq!(
        parse_find_args(&[]),
        Err("find 必须提供 --port <port>".to_string())
    );
    assert_eq!(
        parse_find_args(&strings(&["--port"])),
        Err("--port 缺少值".to_string())
    );
    assert_eq!(
        parse_find_args(&strings(&["--port", "70000"])),
        Err("--port 必须是 0-65535 的端口号".to_string())
    );
    assert_eq!(
        parse_find_args(&strings(&["-p"])),
        Err("find 不支持参数：-p".to_string())
    );
    assert_eq!(
        parse_kill_args(&strings(&["--yes", "--pid", "12345"])),
        Ok((12345, true))
    );
    assert_eq!(parse_kill_args(&strings(&["--pid", "7"])), Ok((7, false)));
    assert_eq!(
        parse_kill_args(&strings(&["--yes"])),
        Err("kill 必须提供 --pid <pid>".to_string())
    );
    assert_eq!(
        parse_kill_args(&strings(&["--pid", "x1"])),
        Err("--pid 必须是数字".to_string())
    );
    assert_eq!(
        parse_kill_args(&strings(&["--force"])),
        Err("kill 不支持参数：--force".to_string())
    );
}

#[test]
fn reads_numbers_like_from_str() {
    let s = |x: &str| x.to_string();
    assert_eq!(parse_required_u16(Some(&s("80")), "--port"), Ok(80));
    assert_eq!(parse_required_u16(Some(&s("+80")), "--port"), Ok(80));
    assert_eq!(parse_required_u16(Some(&s("00080")), "--port"), Ok(80));
    assert_eq!(parse_required_u16(Some(&s("65535")), "--port"), Ok(65535));
    for bad in ["65536", "-1", "", "+", " 80", "8o"] {
        assert_eq!(
            parse_required_u16(Some(&s(bad)), "--port"),
            Err("--port 必须是 0-65535 的端口号".to_string())
        );
    }
    assert_eq!(
        parse_required_u16(None, "--port"),
        Err("--port 缺少值".to_string())
    );
    assert_eq!(parse_required_u32(Some(&s("4294967295")), "--pid"), Ok(u32::MAX));
    assert_eq!(
        parse_required_u32(Some(&s("4294967296")), "--pid"),
        Err("--pid 必须是数字".to_string())
    );
    assert_eq!(parse_required_u32(None, "--pid"), Err("--pid 缺少值".to_string()));
    for n in [0u16, 7, 443, 65535] {
        assert_eq!(parse_required_u16(Some(&n.to_string()), "--port"), Ok(n));
    }
}

#[test]
fn confirmation_needs_yes() {
    assert_eq!(check_confirmation("yes\n"), Ok(()));
    assert_eq!(check_confirmation("  yes \r\n"), Ok(()));
    assert_eq!(check_confirmation("YES"), Err("已取消。".to_string()));
    assert_eq!(check_confirmation(""), Err("已取消。".to_string()));
}

#[test]
fn truncates_long_columns() {
    assert_eq!(truncate("short", 22), "short");
    assert_eq!(truncate("abcdef", 6), "abcdef");
    assert_eq!(truncate("abcdefg", 6), "abcde…");
    assert_eq!(truncate("abc", 1), "a");
    assert_eq!(truncate("abc", 0), "");
    // "ab名" is 5 bytes; a cut at 4 bytes would split 名.
    assert!(!truncation_is_clean("ab名xyzw", 5));
    assert!(truncation_is_clean("ab名xyzw", 6));
    assert_eq!(truncate("ab名xyzw", 6), "ab名…");
    assert_eq!(truncate("ab名xyz", 6), "ab名xyz");
    assert!(truncation_is_clean("fe80::1234:5678:9abc:def0%12", 22));
    assert_eq!(
        truncate("fe80::1234:5678:9abc:def0%12", 22),
        "fe80::1234:5678:9abc:…"
    );
}

#[test]
fn formats_the_port_table() {
    let header = table_header();
    assert!(header.starts_with("协议   本地地址"));
    assert!(header.ends_with("PID      进程"));
    assert_eq!(table_rule(), "-".repeat(96));
    let e = entry("TCP", 3000, "LISTENING", 10, "node.exe");
    assert_eq!(
        table_row(&e),
        format!(
            "{:<4} {:<22} {:<6} {:<22} {:<6} {:<13} {:<8} {}",
            "TCP", "127.0.0.1", 3000, "-", 0, "LISTENING", 10, "node.exe"
        )
    );
}
