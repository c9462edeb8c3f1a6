//! The node's configuration, read from the values of its environment
//! variables `NODES` (a JSON array of node ids), `PID` and `CONFIG_ID`.
use vstd::prelude::*;
use crate::decimal_text::{bounded_text_value, decimal_text, lemma_decimal_round_trip, parse_u32, parse_u64, unsigned_text_value};

verus! {

#[verifier::external_type_specification]
#[verifier::external_body]
pub struct ExJsonError(serde_json::Error);

/// The node ids that `text` denotes when it is a JSON array of unsigned
/// 64-bit integers; `None` when it is not.
pub uninterp spec fn json_u64_array(text: Seq<char>) -> Option<Seq<u64>>;

/// Calls `serde_json::from_str::<Vec<u64>>` on `text`. Claimed: the call
/// succeeds exactly when `json_u64_array` gives a list for the text, and then
/// returns that list; the JSON grammar itself is not stated here.
#[verifier::external_body]
fn json_node_list(text: &str) -> (r: Result<Vec<u64>, serde_json::Error>)
    ensures
        r is Ok <==> json_u64_array(text@) is Some,
        r matches Ok(v) ==> json_u64_array(text@) == Some(v@),
{
    serde_json::from_str::<Vec<u64>>(text)
}

/// Why the configuration cannot be read.
#[derive(Clone, Copy, Debug, PartialEq, Eq, Structural)]
pub enum ConfigError {
    /// `NODES` is set but is not a JSON array of node ids.
    WrongNodesFormat,
    /// `PID` is not set.
    MissingPid,
    /// `PID` is not a `u64`.
    InvalidPid,
    /// `PID` is zero, the id reserved for the client.
    ZeroPid,
    /// `CONFIG_ID` is not set.
    MissingConfigId,
    /// `CONFIG_ID` is not a `u32`.
    InvalidConfigId,
    /// `CONFIG_ID` is zero.
    ZeroConfigId,
}

/// The configuration of this node.
#[derive(Debug)]
pub struct NodeConfig {
    /// The ids of the nodes of the cluster.
    pub nodes: Vec<u64>,
    /// This node's id (never zero).
    pub pid: u64,
    /// The id of the cluster configuration that this node starts in (never zero).
    pub config_id: u32,
}

/// The cluster's node ids as `NODES` gives them: none when it is unset.
pub open spec fn nodes_result(var: Option<String>) -> Result<Seq<u64>, ConfigError> {
    match var {
        None => Ok(Seq::empty()),
        Some(s) => match json_u64_array(s@) {
            Some(list) => Ok(list),
            None => Err(ConfigError::WrongNodesFormat),
        },
    }
}

/// This node's id as `PID` gives it.
pub open spec fn pid_result(var: Option<String>) -> Result<u64, ConfigError> {
    match var {
        None => Err(ConfigError::MissingPid),
        Some(s) => match bounded_text_value(s@, u64::MAX as nat) {
            None => Err(ConfigError::InvalidPid),
            Some(v) => if v == 0 {
                Err(ConfigError::ZeroPid)
            } else {
                Ok(v as u64)
            },
        },
    }
}

/// The starting configuration id as `CONFIG_ID` gives it.
pub open spec fn config_id_result(var: Option<String>) -> Result<u32, ConfigError> {
    match var {
        None => Err(ConfigError::MissingConfigId),
        Some(s) => match bounded_text_value(s@, u32::MAX as nat) {
            None => Err(ConfigError::InvalidConfigId),
            Some(v) => if v == 0 {
                Err(ConfigError::ZeroConfigId)
            } else {
                Ok(v as u32)
            },
        },
    }
}

/// `PID` and `CONFIG_ID` are read as the number their text spells: a value
/// that is read back is that number, and every non-zero number written in
/// decimal (as `to_string` prints it) is read back as itself.
pub proof fn lemma_ids_read_the_number(s: String, n: u64)
    ensures
        pid_result(Some(s)) matches Ok(p) ==> unsigned_text_value(s@) == Some(p as nat),
        config_id_result(Some(s)) matches Ok(c) ==> unsigned_text_value(s@) == Some(c as nat),
        s@ == decimal_text(n as nat) && n != 0 ==> pid_result(Some(s)) == Ok::<u64, ConfigError>(n),
        s@ == decimal_text(n as nat) && n != 0 && n <= u32::MAX ==> config_id_result(Some(s))
            == Ok::<u32, ConfigError>(n as u32),
{
    lemma_decimal_round_trip(n as nat);
}

/// The cluster's node ids: none when `NODES` is unset.
pub fn parse_nodes(var: Option<String>) -> (nodes: Result<Vec<u64>, ConfigError>)
    ensures
        match nodes_result(var) {
            Ok(list) => nodes matches Ok(v) && v@ == list,
            Err(e) => nodes == Err::<Vec<u64>, ConfigError>(e),
        },
{
    match var {
        None => Ok(Vec::new()),
        Some(s) => match json_node_list(s.as_str()) {
            Ok(v) => Ok(v),
            Err(_) => Err(ConfigError::WrongNodesFormat),
        },
    }
}

/// This node's id: `PID` must be set, a `u64`, and not zero.
pub fn parse_pid(var: Option<String>) -> (pid: Result<u64, ConfigError>)
    ensures
        pid == pid_result(var),
{
    match var {
        None => Err(ConfigError::MissingPid),
        Some(s) => match parse_u64(s.as_str()) {
            None => Err(ConfigError::InvalidPid),
            Some(x) => if x == 0 {
                Err(ConfigError::ZeroPid)
            } else {
                Ok(x)
            },
        },
    }
}

/// The starting configuration id: `CONFIG_ID` must be set, a `u32`, and not zero.
pub fn parse_config_id(var: Option<String>) -> (config_id: Result<u32, ConfigError>)
    ensures
        config_id == config_id_result(var),
{
    match var {
        None => Err(ConfigError::MissingConfigId),
        Some(s) => match parse_u32(s.as_str()) {
            None => Err(ConfigError::InvalidConfigId),
            Some(x) => if x == 0 {
                Err(ConfigError::ZeroConfigId)
            } else {
                Ok(x)
            },
        },
    }
}

/// The whole configuration, checked in the order in which the node first
/// needs each value: `PID`, then `CONFIG_ID`, then `NODES`; the first value
/// that is wrong gives the error.
pub fn load_config(nodes_var: Option<String>, pid_var: Option<String>, config_var: Option<String>) -> (config: Result<NodeConfig, ConfigError>)
    ensures
        match (pid_result(pid_var), config_id_result(config_var), nodes_result(nodes_var)) {
            (Err(e), _, _) => config matches Err(x) && x == e,
            (Ok(_), Err(e), _) => config matches Err(x) && x == e,
            (Ok(_), Ok(_), Err(e)) => config matches Err(x) && x == e,
            (Ok(p), Ok(c), Ok(list)) => config matches Ok(cfg) && cfg.pid == p && cfg.config_id == c
                && cfg.nodes@ == list,
        },
{
    let pid = match parse_pid(pid_var) {
        Ok(p) => p,
        Err(e) => return Err(e),
    };
    let config_id = match parse_config_id(config_var) {
        Ok(c) => c,
        Err(e) => return Err(e),
    };
    let nodes = match parse_nodes(nodes_var) {
        Ok(n) => n,
        Err(e) => return Err(e),
    };
    Ok(NodeConfig { nodes, pid, config_id })
}

} // verus!
