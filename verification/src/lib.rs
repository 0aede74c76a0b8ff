//! Port and process inspection: the rules that decide which ports are shown,
//! how they are ordered and grouped, which processes may be ended, and how
//! raw system data is turned into text.
use vstd::prelude::*;

pub mod classify;
pub mod cli;
pub mod favorites;
pub mod filter;
pub mod group;
pub mod laws;
pub mod model;
pub mod net;
pub mod order;
pub mod process;
pub mod tables;
pub mod text;
pub mod utf16;
pub mod winpath;

pub use classify::{contains_any, detect_process_type, process_type_label};
pub use cli::{
    check_confirmation, parse_command, parse_filter_args, parse_find_args, parse_kill_args,
    parse_required_u16, parse_required_u32, table_header, table_row, table_rule, truncate,
    truncation_is_clean, CliCommand,
};
pub use favorites::{load_favorites, normalize_favorites, save_favorites};
pub use filter::{apply_filter, list_filtered_ports};
pub use group::group_by_process;
pub use model::{
    PortEntry, PortFilter, PortableSettings, ProcessDetailRequest, ProcessDetails, ProcessGroup,
    ProcessInfo,
};
pub use net::{ipv4_from_dword, ipv6_to_string, port_from_dword, tcp_state_name};
pub use order::sort_entries;
pub use process::{
    account_name, command_line_query, non_empty_text, pids_to_describe, pids_to_look_up, push_entry,
    query_process_details, query_process_info, record_process_name, remember_process_info,
    termination_deny_reason,
    ProcessLookup,
};
pub use tables::{
    check_table_read, check_table_size, collect_tcp_v4, collect_tcp_v6, collect_udp_v4,
    collect_udp_v6, Tcp6Row, TcpRow, Udp6Row, UdpRow,
};
pub use utf16::{process_entry_name, string_from_utf16_lossy, wide_null};
pub use winpath::file_name;

verus! {
} // verus!
