use portkill_core::{
    apply_filter, detect_process_type, group_by_process, ipv4_from_dword, ipv6_to_string,
    load_favorites, port_from_dword, query_process_details, query_process_info, save_favorites,
    tcp_state_name, termination_deny_reason, PortEntry, PortFilter,
    ProcessDetailRequest, ProcessLookup,
};
use std::collections::HashMap;

fn sample_entry(protocol: &str, port: u16, state: &str, pid: u32, process: &str) -> PortEntry {
    PortEntry {
        protocol: protocol.to_string(),
        local_addr: "127.0.0.1".to_string(),
        local_port: port,
        remote_addr: "-".to_string(),
        remote_port: 0,
        state: state.to_string(),
        pid,
        process: process.to_string(),
        path: format!("C:\\Tools\\{process}"),
        user: "LOCAL\\tester".to_string(),
        command: format!("{process} --port {port}"),
        process_type: detect_process_type(process, &format!("C:\\Tools\\{process}"), ""),
        can_terminate: true,
        deny_reason: String::new(),
    }
}

const LOCALHOST_V6: [u8; 16] = [0, 0, 0, 0, 0, 0, 0, 0, 0, 0, 0, 0, 0, 0, 0, 1];

#[test]
fn converts_ports_from_network_order() {
    assert_eq!(port_from_dword(0xB80B), 3000);
    assert_eq!(port_from_dword(0x901F), 8080);
}

#[test]
fn maps_tcp_states() {
    assert_eq!(tcp_state_name(2), "LISTENING");
    assert_eq!(tcp_state_name(5), "ESTABLISHED");
    assert_eq!(tcp_state_name(999), "UNKNOWN");
}

#[test]
fn formats_ip_addresses() {
    assert_eq!(ipv4_from_dword(0x0100007f), "127.0.0.1");
    assert_eq!(ipv6_to_string(LOCALHOST_V6, 0), "::1");
    assert_eq!(ipv6_to_string(LOCALHOST_V6, 12), "::1%12");
}

#[test]
fn filters_entries() {
    let entries = vec![
        sample_entry("TCP", 3000, "LISTENING", 10, "vite.exe"),
        sample_entry("TCP", 3000, "ESTABLISHED", 11, "chrome.exe"),
        sample_entry("UDP", 5353, "-", 12, "mdns.exe"),
    ];

    let filtered = apply_filter(
        entries.clone(),
        &PortFilter {
            listeners_only: true,
            ..Default::default()
        },
    );
    assert_eq!(filtered.len(), 2);

    let filtered = apply_filter(
        entries,
        &PortFilter {
            protocol: Some("tcp".to_string()),
            state: Some("LISTENING".to_string()),
            query: Some("vite".to_string()),
            listeners_only: false,
            port: Some(3000),
        },
    );
    assert_eq!(filtered.len(), 1);
    assert_eq!(filtered[0].process, "vite.exe");

    let filtered = apply_filter(
        vec![sample_entry("TCP", 5432, "LISTENING", 13, "postgres.exe")],
        &PortFilter {
            query: Some("tester".to_string()),
            ..Default::default()
        },
    );
    assert_eq!(filtered.len(), 1);

    let filtered = apply_filter(
        vec![sample_entry("TCP", 5173, "LISTENING", 14, "node.exe")],
        &PortFilter {
            query: Some("--port 5173".to_string()),
            ..Default::default()
        },
    );
    assert_eq!(filtered.len(), 1);
}

#[test]
fn detects_process_types() {
    assert_eq!(detect_process_type("nginx.exe", "", ""), "web_server");
    assert_eq!(detect_process_type("sqlservr.exe", "", ""), "database");
    assert_eq!(detect_process_type("mysqld.exe", "", ""), "database");
    assert_eq!(detect_process_type("postmaster.exe", "", ""), "database");
    assert_eq!(
        detect_process_type("wrapper.exe", "", "pgsql data server"),
        "database"
    );
    assert_eq!(detect_process_type("node.exe", "", ""), "development");
    assert_eq!(detect_process_type("svchost.exe", "", ""), "system");
    assert_eq!(detect_process_type("custom-app.exe", "", ""), "other");
    assert_eq!(
        detect_process_type("wrapper.exe", "", "python app.py"),
        "development"
    );
}

#[test]
fn falls_back_to_snapshot_process_name() {
    let mut names = HashMap::new();
    names.insert(999_999, "mysqld.exe".to_string());

    // A process that does not exist has no image path.
    let info = query_process_info(999_999, String::new(), &names);
    assert_eq!(info.process, "mysqld.exe");
    assert_eq!(
        detect_process_type(&info.process, &info.path, ""),
        "database"
    );
}

#[test]
fn builds_process_details_without_duplicates() {
    let requests = vec![
        ProcessDetailRequest {
            pid: 0,
            process: "Idle".to_string(),
            path: String::new(),
        },
        ProcessDetailRequest {
            pid: 0,
            process: "Idle".to_string(),
            path: String::new(),
        },
        ProcessDetailRequest {
            pid: 4,
            process: "System".to_string(),
            path: String::new(),
        },
    ];

    let lookups: HashMap<u32, ProcessLookup> = HashMap::new();
    let details = query_process_details(&requests, &lookups);
    assert_eq!(details.len(), 2);
    assert!(details.iter().any(|detail| detail.pid == 0));
    let system = details.iter().find(|detail| detail.pid == 4).unwrap();
    assert_eq!(system.user, "NT AUTHORITY\\SYSTEM");
    assert_eq!(system.process_type, "system");
}

#[test]
fn groups_entries_by_pid() {
    let entries = vec![
        sample_entry("TCP", 3000, "LISTENING", 10, "node.exe"),
        sample_entry("UDP", 3001, "-", 10, "node.exe"),
        sample_entry("TCP", 5432, "LISTENING", 11, "postgres.exe"),
    ];

    let groups = group_by_process(&entries);
    assert_eq!(groups.len(), 2);
    let node = groups.iter().find(|group| group.pid == 10).unwrap();
    assert_eq!(node.ports.len(), 2);
    assert_eq!(node.ports[0].local_port, 3000);
    assert_eq!(node.ports[1].local_port, 3001);
}

#[test]
fn reads_and_writes_favorites_settings() {
    // No settings file yet.
    assert_eq!(load_favorites(None), Vec::<u16>::new());
    let saved = save_favorites(&[3000, 8080, 3000]);
    assert_eq!(load_favorites(Some(saved)), vec![3000, 8080]);
}

#[test]
fn protects_special_pids() {
    assert!(termination_deny_reason(0, 100).is_some());
    assert!(termination_deny_reason(4, 100).is_some());
    assert!(termination_deny_reason(100, 100).is_some());
    assert!(termination_deny_reason(101, 100).is_none());
}
