//! Where a node connects to and where it keeps its files.
use vstd::prelude::*;
use crate::decimal_text::{decimal_text, push_decimal};

verus! {

/// The address of the client-facing endpoint of node `my_pid`: the service
/// host, port prefix `800`, then the node's id.
pub open spec fn api_addr_text(my_pid: nat) -> Seq<char> {
    "net.default.svc.cluster.local:800"@ + decimal_text(my_pid)
}

/// The address on which node `my_pid` reaches peer `receiver_pid`: the
/// service host, port prefix `80`, then both ids.
pub open spec fn peer_addr_text(my_pid: nat, receiver_pid: nat) -> Seq<char> {
    "net.default.svc.cluster.local:80"@ + decimal_text(my_pid) + decimal_text(receiver_pid)
}

/// Where the consensus log of node `pid` in configuration `config_id` is stored.
pub open spec fn storage_path_text(pid: nat, config_id: nat) -> Seq<char> {
    "/data/omnipaxos_storage_"@ + decimal_text(pid) + "_"@ + decimal_text(config_id)
}

/// Where the consensus log of node `pid` is stored when it joins a new configuration.
pub open spec fn reconfigured_storage_path_text(pid: nat) -> Seq<char> {
    "/data/omnipaxos_storage_"@ + decimal_text(pid)
}

/// Where the key-value data of configuration `config_id` is stored.
pub open spec fn db_path_text(config_id: nat) -> Seq<char> {
    "data/db"@ + decimal_text(config_id)
}

/// The lock file that a store keeps inside its directory.
pub open spec fn lock_file_text(dir: Seq<char>) -> Seq<char> {
    dir + "/LOCK"@
}

/// The address of this node's client-facing endpoint.
pub fn get_my_api_addr(my_pid: u64) -> (addr: String)
    ensures
        addr@ == api_addr_text(my_pid as nat),
{
    let mut out = String::from_str("net.default.svc.cluster.local:800");
    push_decimal(&mut out, my_pid);
    out
}

/// The address on which this node reaches peer `receiver_pid`.
pub fn get_peer_addr(my_pid: u64, receiver_pid: u64) -> (addr: String)
    ensures
        addr@ == peer_addr_text(my_pid as nat, receiver_pid as nat),
{
    let mut out = String::from_str("net.default.svc.cluster.local:80");
    push_decimal(&mut out, my_pid);
    push_decimal(&mut out, receiver_pid);
    out
}

/// The directory of the consensus log of node `pid` in configuration `config_id`.
pub fn storage_path(pid: u64, config_id: u32) -> (path: String)
    ensures
        path@ == storage_path_text(pid as nat, config_id as nat),
{
    let mut out = String::from_str("/data/omnipaxos_storage_");
    push_decimal(&mut out, pid);
    out.append("_");
    push_decimal(&mut out, config_id as u64);
    out
}

/// The directory of the consensus log of node `pid` after it joins a new configuration.
pub fn reconfigured_storage_path(pid: u64) -> (path: String)
    ensures
        path@ == reconfigured_storage_path_text(pid as nat),
{
    let mut out = String::from_str("/data/omnipaxos_storage_");
    push_decimal(&mut out, pid);
    out
}

/// The directory of the key-value data of configuration `config_id`.
pub fn db_path(config_id: u32) -> (path: String)
    ensures
        path@ == db_path_text(config_id as nat),
{
    let mut out = String::from_str("data/db");
    push_decimal(&mut out, config_id as u64);
    out
}

/// The directory of the key-value data after a node joins a new configuration.
pub fn reconfigured_db_path() -> (path: String)
    ensures
        path@ == "/data/db"@,
{
    String::from_str("/data/db")
}

/// The lock file inside directory `dir`.
pub fn lock_file_path(dir: &str) -> (path: String)
    ensures
        path@ == lock_file_text(dir@),
{
    let mut out = String::from_str(dir);
    out.append("/LOCK");
    out
}

} // verus!
