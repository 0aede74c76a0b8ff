//! The system's TCP and UDP endpoint tables: what to do with the status codes
//! of the two-step table read, and how each row becomes a `PortEntry`.
use vstd::prelude::*;
use std::collections::HashMap;
use crate::model::{PortEntry, ProcessInfo};
use crate::net::{ipv4_from_dword, ipv4_text, ipv6_scoped_text, ipv6_to_string, port_from_dword, port_of_dword, tcp_state_name, tcp_state_text};
use crate::process::{entry_is, push_entry};
use crate::text::{concat2, decimal, decimal_string, owned};

verus! {

pub const NO_ERROR: u32 = 0;

pub const ERROR_INSUFFICIENT_BUFFER: u32 = 122;

/// The message for a failed size query of table function `api`.
pub open spec fn probe_error_text(api: Seq<char>, status: u32) -> Seq<char> {
    api + " 预读取失败，错误码 "@ + decimal(status as nat)
}

/// The message for a failed read of table function `api`.
pub open spec fn read_error_text(api: Seq<char>, status: u32) -> Seq<char> {
    api + " 读取失败，错误码 "@ + decimal(status as nat)
}

fn message(api: &str, middle: &str, status: u32) -> (r: String)
    ensures
        r@ == api@ + middle@ + decimal(status as nat),
{
    let head = concat2(api, middle);
    let d = decimal_string(status);
    concat2(head.as_str(), d.as_str())
}

/// After the first call of a table function, which asks for the buffer size:
/// a status other than success or "insufficient buffer" is an error; a size of
/// 0 means the table is empty (`Ok(false)`); otherwise the table must be read
/// into a buffer of that size (`Ok(true)`).
pub fn check_table_size(api: &str, status: u32, size: u32) -> (r: Result<bool, String>)
    ensures
        status != ERROR_INSUFFICIENT_BUFFER && status != NO_ERROR ==> (r matches Err(e) && e@
            == probe_error_text(api@, status)),
        (status == ERROR_INSUFFICIENT_BUFFER || status == NO_ERROR) ==> r == Ok::<bool, String>(
            size != 0,
        ),
{
    if status != ERROR_INSUFFICIENT_BUFFER && status != NO_ERROR {
        return Err(message(api, " 预读取失败，错误码 ", status));
    }
    Ok(size != 0)
}

/// After the second call, which fills the buffer: any status but success is an error.
pub fn check_table_read(api: &str, status: u32) -> (r: Result<(), String>)
    ensures
        status != NO_ERROR ==> (r matches Err(e) && e@ == read_error_text(api@, status)),
        status == NO_ERROR ==> r is Ok,
{
    if status != NO_ERROR {
        return Err(message(api, " 读取失败，错误码 ", status));
    }
    Ok(())
}

/// A row of the IPv4 TCP table (`MIB_TCPROW_OWNER_PID`).
pub struct TcpRow {
    pub state: u32,
    pub local_addr: u32,
    pub local_port: u32,
    pub remote_addr: u32,
    pub remote_port: u32,
    pub owning_pid: u32,
}

/// A row of the IPv6 TCP table (`MIB_TCP6ROW_OWNER_PID`).
pub struct Tcp6Row {
    pub local_addr: [u8; 16],
    pub local_scope_id: u32,
    pub local_port: u32,
    pub remote_addr: [u8; 16],
    pub remote_scope_id: u32,
    pub remote_port: u32,
    pub state: u32,
    pub owning_pid: u32,
}

/// A row of the IPv4 UDP table (`MIB_UDPROW_OWNER_PID`).
pub struct UdpRow {
    pub local_addr: u32,
    pub local_port: u32,
    pub owning_pid: u32,
}

/// A row of the IPv6 UDP table (`MIB_UDP6ROW_OWNER_PID`).
pub struct Udp6Row {
    pub local_addr: [u8; 16],
    pub local_scope_id: u32,
    pub local_port: u32,
    pub owning_pid: u32,
}

/// `entries` grew by one row per table row, in table order.
pub open spec fn appended(old_entries: Seq<PortEntry>, new_entries: Seq<PortEntry>, n: nat) -> bool {
    &&& new_entries.len() == old_entries.len() + n
    &&& new_entries.take(old_entries.len() as int) == old_entries
}

pub fn collect_tcp_v4(
    entries: &mut Vec<PortEntry>,
    rows: &[TcpRow],
    current_pid: u32,
    infos: &HashMap<u32, ProcessInfo>,
)
    requires
        forall|i: int| 0 <= i < rows@.len() ==> infos@.contains_key(#[trigger] rows@[i].owning_pid),
    ensures
        appended(old(entries)@, final(entries)@, rows@.len()),
        forall|i: int|
            0 <= i < rows@.len() ==> {
                let r = #[trigger] rows@[i];
                entry_is(
                    final(entries)@[old(entries)@.len() + i],
                    "TCP"@,
                    ipv4_text(r.local_addr),
                    port_of_dword(r.local_port) as u16,
                    ipv4_text(r.remote_addr),
                    port_of_dword(r.remote_port) as u16,
                    tcp_state_text(r.state),
                    r.owning_pid,
                    current_pid,
                    infos@[r.owning_pid],
                )
            },
{
    let ghost start = entries@;
    let mut i: usize = 0;
    assert(start.take(start.len() as int) =~= start);
    while i < rows.len()
        invariant
            i <= rows.len(),
            forall|i: int| 0 <= i < rows@.len() ==> infos@.contains_key(#[trigger] rows@[i].owning_pid),
            appended(start, entries@, i as nat),
            forall|k: int|
                0 <= k < i ==> {
                    let r = #[trigger] rows@[k];
                    entry_is(
                        entries@[start.len() + k],
                        "TCP"@,
                        ipv4_text(r.local_addr),
                        port_of_dword(r.local_port) as u16,
                        ipv4_text(r.remote_addr),
                        port_of_dword(r.remote_port) as u16,
                        tcp_state_text(r.state),
                        r.owning_pid,
                        current_pid,
                        infos@[r.owning_pid],
                    )
                },
        decreases rows.len() - i,
    {
        let row = &rows[i];
        let info = infos.get(&row.owning_pid).unwrap();
        let ghost before = entries@;
        push_entry(
            entries,
            "TCP",
            ipv4_from_dword(row.local_addr),
            port_from_dword(row.local_port),
            ipv4_from_dword(row.remote_addr),
            port_from_dword(row.remote_port),
            owned(tcp_state_name(row.state)),
            row.owning_pid,
            current_pid,
            info,
        );
        proof {
            assert forall|k: int| 0 <= k < start.len() + i implies entries@[k] == before[k] by {
                assert(entries@.take(before.len() as int)[k] == entries@[k]);
            }
            assert(entries@.take(start.len() as int) =~= start);
        }
        i = i + 1;
    }
}

pub fn collect_tcp_v6(
    entries: &mut Vec<PortEntry>,
    rows: &[Tcp6Row],
    current_pid: u32,
    infos: &HashMap<u32, ProcessInfo>,
)
    requires
        forall|i: int| 0 <= i < rows@.len() ==> infos@.contains_key(#[trigger] rows@[i].owning_pid),
    ensures
        appended(old(entries)@, final(entries)@, rows@.len()),
        forall|i: int|
            0 <= i < rows@.len() ==> {
                let r = #[trigger] rows@[i];
                entry_is(
                    final(entries)@[old(entries)@.len() + i],
                    "TCP"@,
                    ipv6_scoped_text(r.local_addr@, r.local_scope_id),
                    port_of_dword(r.local_port) as u16,
                    ipv6_scoped_text(r.remote_addr@, r.remote_scope_id),
                    port_of_dword(r.remote_port) as u16,
                    tcp_state_text(r.state),
                    r.owning_pid,
                    current_pid,
                    infos@[r.owning_pid],
                )
            },
{
    let ghost start = entries@;
    let mut i: usize = 0;
    assert(start.take(start.len() as int) =~= start);
    while i < rows.len()
        invariant
            i <= rows.len(),
            forall|i: int| 0 <= i < rows@.len() ==> infos@.contains_key(#[trigger] rows@[i].owning_pid),
            appended(start, entries@, i as nat),
            forall|k: int|
                0 <= k < i ==> {
                    let r = #[trigger] rows@[k];
                    entry_is(
                        entries@[start.len() + k],
                        "TCP"@,
                        ipv6_scoped_text(r.local_addr@, r.local_scope_id),
                        port_of_dword(r.local_port) as u16,
                        ipv6_scoped_text(r.remote_addr@, r.remote_scope_id),
                        port_of_dword(r.remote_port) as u16,
                        tcp_state_text(r.state),
                        r.owning_pid,
                        current_pid,
                        infos@[r.owning_pid],
                    )
                },
        decreases rows.len() - i,
    {
        let row = &rows[i];
        let info = infos.get(&row.owning_pid).unwrap();
        let ghost before = entries@;
        push_entry(
            entries,
            "TCP",
            ipv6_to_string(row.local_addr, row.local_scope_id),
            port_from_dword(row.local_port),
            ipv6_to_string(row.remote_addr, row.remote_scope_id),
            port_from_dword(row.remote_port),
            owned(tcp_state_name(row.state)),
            row.owning_pid,
            current_pid,
            info,
        );
        proof {
            assert forall|k: int| 0 <= k < start.len() + i implies entries@[k] == before[k] by {
                assert(entries@.take(before.len() as int)[k] == entries@[k]);
            }
            assert(entries@.take(start.len() as int) =~= start);
        }
        i = i + 1;
    }
}

pub fn collect_udp_v4(
    entries: &mut Vec<PortEntry>,
    rows: &[UdpRow],
    current_pid: u32,
    infos: &HashMap<u32, ProcessInfo>,
)
    requires
        forall|i: int| 0 <= i < rows@.len() ==> infos@.contains_key(#[trigger] rows@[i].owning_pid),
    ensures
        appended(old(entries)@, final(entries)@, rows@.len()),
        forall|i: int|
            0 <= i < rows@.len() ==> {
                let r = #[trigger] rows@[i];
                entry_is(
                    final(entries)@[old(entries)@.len() + i],
                    "UDP"@,
                    ipv4_text(r.local_addr),
                    port_of_dword(r.local_port) as u16,
                    "-"@,
                    0,
                    "-"@,
                    r.owning_pid,
                    current_pid,
                    infos@[r.owning_pid],
                )
            },
{
    let ghost start = entries@;
    let mut i: usize = 0;
    assert(start.take(start.len() as int) =~= start);
    while i < rows.len()
        invariant
            i <= rows.len(),
            forall|i: int| 0 <= i < rows@.len() ==> infos@.contains_key(#[trigger] rows@[i].owning_pid),
            appended(start, entries@, i as nat),
            forall|k: int|
                0 <= k < i ==> {
                    let r = #[trigger] rows@[k];
                    entry_is(
                        entries@[start.len() + k],
                        "UDP"@,
                        ipv4_text(r.local_addr),
                        port_of_dword(r.local_port) as u16,
                        "-"@,
                        0,
                        "-"@,
                        r.owning_pid,
                        current_pid,
                        infos@[r.owning_pid],
                    )
                },
        decreases rows.len() - i,
    {
        let row = &rows[i];
        let info = infos.get(&row.owning_pid).unwrap();
        let ghost before = entries@;
        push_entry(
            entries,
            "UDP",
            ipv4_from_dword(row.local_addr),
            port_from_dword(row.local_port),
            owned("-"),
            0,
            owned("-"),
            row.owning_pid,
            current_pid,
            info,
        );
        proof {
            assert forall|k: int| 0 <= k < start.len() + i implies entries@[k] == before[k] by {
                assert(entries@.take(before.len() as int)[k] == entries@[k]);
            }
            assert(entries@.take(start.len() as int) =~= start);
        }
        i = i + 1;
    }
}

pub fn collect_udp_v6(
    entries: &mut Vec<PortEntry>,
    rows: &[Udp6Row],
    current_pid: u32,
    infos: &HashMap<u32, ProcessInfo>,
)
    requires
        forall|i: int| 0 <= i < rows@.len() ==> infos@.contains_key(#[trigger] rows@[i].owning_pid),
    ensures
        appended(old(entries)@, final(entries)@, rows@.len()),
        forall|i: int|
            0 <= i < rows@.len() ==> {
                let r = #[trigger] rows@[i];
                entry_is(
                    final(entries)@[old(entries)@.len() + i],
                    "UDP"@,
                    ipv6_scoped_text(r.local_addr@, r.local_scope_id),
                    port_of_dword(r.local_port) as u16,
                    "-"@,
                    0,
                    "-"@,
                    r.owning_pid,
                    current_pid,
                    infos@[r.owning_pid],
                )
            },
{
    let ghost start = entries@;
    let mut i: usize = 0;
    assert(start.take(start.len() as int) =~= start);
    while i < rows.len()
        invariant
            i <= rows.len(),
            forall|i: int| 0 <= i < rows@.len() ==> infos@.contains_key(#[trigger] rows@[i].owning_pid),
            appended(start, entries@, i as nat),
            forall|k: int|
                0 <= k < i ==> {
                    let r = #[trigger] rows@[k];
                    entry_is(
                        entries@[start.len() + k],
                        "UDP"@,
                        ipv6_scoped_text(r.local_addr@, r.local_scope_id),
                        port_of_dword(r.local_port) as u16,
                        "-"@,
                        0,
                        "-"@,
                        r.owning_pid,
                        current_pid,
                        infos@[r.owning_pid],
                    )
                },
        decreases rows.len() - i,
    {
        let row = &rows[i];
        let info = infos.get(&row.owning_pid).unwrap();
        let ghost before = entries@;
        push_entry(
            entries,
            "UDP",
            ipv6_to_string(row.local_addr, row.local_scope_id),
            port_from_dword(row.local_port),
            owned("-"),
            0,
            owned("-"),
            row.owning_pid,
            current_pid,
            info,
        );
        proof {
            assert forall|k: int| 0 <= k < start.len() + i implies entries@[k] == before[k] by {
                assert(entries@.take(before.len() as int)[k] == entries@[k]);
            }
            assert(entries@.take(start.len() as int) =~= start);
        }
        i = i + 1;
    }
}

} // verus!
