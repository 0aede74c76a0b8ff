//! The records the library works on: one row per local endpoint, the groups
//! and process details built from them, and the filter and settings a user gives.
use vstd::prelude::*;

verus! {

/// One local TCP or UDP endpoint and the process that owns it.
#[derive(Debug, PartialEq, Eq)]
pub struct PortEntry {
    pub protocol: String,
    pub local_addr: String,
    pub local_port: u16,
    pub remote_addr: String,
    pub remote_port: u16,
    pub state: String,
    pub pid: u32,
    pub process: String,
    pub path: String,
    pub user: String,
    pub command: String,
    pub process_type: String,
    pub can_terminate: bool,
    pub deny_reason: String,
}

impl Clone for PortEntry {
    fn clone(&self) -> (r: Self)
        ensures
            r == *self,
    {
        PortEntry {
            protocol: self.protocol.clone(),
            local_addr: self.local_addr.clone(),
            local_port: self.local_port,
            remote_addr: self.remote_addr.clone(),
            remote_port: self.remote_port,
            state: self.state.clone(),
            pid: self.pid,
            process: self.process.clone(),
            path: self.path.clone(),
            user: self.user.clone(),
            command: self.command.clone(),
            process_type: self.process_type.clone(),
            can_terminate: self.can_terminate,
            deny_reason: self.deny_reason.clone(),
        }
    }
}

/// The endpoints of one process, with that process's description.
#[derive(Debug, PartialEq, Eq)]
pub struct ProcessGroup {
    pub pid: u32,
    pub process: String,
    pub path: String,
    pub user: String,
    pub command: String,
    pub process_type: String,
    pub ports: Vec<PortEntry>,
}

/// A process whose owner and command line are asked for.
#[derive(Debug, PartialEq, Eq)]
pub struct ProcessDetailRequest {
    pub pid: u32,
    pub process: String,
    pub path: String,
}

impl Clone for ProcessDetailRequest {
    fn clone(&self) -> (r: Self)
        ensures
            r == *self,
    {
        ProcessDetailRequest { pid: self.pid, process: self.process.clone(), path: self.path.clone() }
    }
}

/// The owner, command line and kind of one process.
#[derive(Debug, PartialEq, Eq)]
pub struct ProcessDetails {
    pub pid: u32,
    pub user: String,
    pub command: String,
    pub process_type: String,
}

/// Which endpoints to show. `None` and empty texts select everything.
#[derive(Debug, Default, PartialEq, Eq)]
pub struct PortFilter {
    pub protocol: Option<String>,
    pub state: Option<String>,
    pub query: Option<String>,
    pub listeners_only: bool,
    pub port: Option<u16>,
}

/// What the settings file next to the program holds.
#[derive(Debug, Default, PartialEq, Eq)]
pub struct PortableSettings {
    pub favorites: Vec<u16>,
}

/// What is known of the process that owns an endpoint.
#[derive(Debug, Default, PartialEq, Eq)]
pub struct ProcessInfo {
    pub process: String,
    pub path: String,
    pub user: String,
    pub command: String,
}

impl Clone for ProcessInfo {
    fn clone(&self) -> (r: Self)
        ensures
            r == *self,
    {
        ProcessInfo {
            process: self.process.clone(),
            path: self.path.clone(),
            user: self.user.clone(),
            command: self.command.clone(),
        }
    }
}

} // verus!
