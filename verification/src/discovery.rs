//! Decisions taken when the cluster reports a pod: whether to connect to it,
//! under which node id, at which address, and what the connection is for.
use vstd::prelude::*;
use crate::addresses::{api_addr_text, get_my_api_addr, get_peer_addr, peer_addr_text};
use crate::decimal_text::{decimal_text, is_digit, lemma_decimal_round_trip, lemma_decimal_text_all_digits, parse_u64, unsigned_text_value};
use crate::text::{has_prefix, lemma_split_after_piece, lemma_split_without_sep, split_field, split_on, starts_with};

verus! {

/// What a pod is to this node, told by its name.
#[derive(Clone, Copy, Debug, PartialEq, Eq, Structural)]
pub enum PodRole {
    /// A replica of the key-value store (name begins with `kv-store`).
    KvStore,
    /// The client-facing network actor (name begins with `net`).
    NetworkActor,
    /// Any other pod; it is not connected to.
    Other,
}

/// Why a pod's name does not give a node id.
#[derive(Clone, Copy, Debug, PartialEq, Eq, Structural)]
pub enum PodIdError {
    /// The third `-`-separated piece of the name is not a `u64`.
    NotANumber,
    /// The third piece is `u64::MAX`, so the id (one above it) does not fit.
    Overflow,
}

/// A pod that this node connects to.
#[derive(Debug)]
pub struct PodTarget {
    pub name: String,
    pub ip: String,
    pub id: u64,
}

/// The role of a pod named `name`.
pub open spec fn role_of(name: Seq<char>) -> PodRole {
    if has_prefix(name, "kv-store"@) {
        PodRole::KvStore
    } else if has_prefix(name, "net"@) {
        PodRole::NetworkActor
    } else {
        PodRole::Other
    }
}

/// The node id of the pod named `name`: zero when the name has fewer than
/// three `-`-separated pieces, else one more than the number that the third
/// piece spells (a stateful-set ordinal, so that no replica gets id zero).
pub open spec fn pod_id_of(name: Seq<char>) -> Result<nat, PodIdError> {
    let parts = split_on(name, '-');
    if parts.len() < 3 {
        Ok(0)
    } else {
        match unsigned_text_value(parts[2]) {
            Some(v) => if v < u64::MAX {
                Ok(v + 1)
            } else if v == u64::MAX {
                Err(PodIdError::Overflow)
            } else {
                Err(PodIdError::NotANumber)
            },
            None => Err(PodIdError::NotANumber),
        }
    }
}

/// The address this node dials for the pod named `name` with node id
/// `pod_id`: the client endpoint for the network actor, else the peer
/// address of that id.
pub open spec fn connection_addr_text(name: Seq<char>, my_pid: nat, pod_id: nat) -> Seq<char> {
    if has_prefix(name, "net"@) {
        api_addr_text(my_pid)
    } else {
        peer_addr_text(my_pid, pod_id)
    }
}

/// A pod whose name carries an ordinal gets a non-zero node id, so no
/// replica takes the id reserved for the client.
pub proof fn lemma_ordinal_ids_are_not_zero(name: Seq<char>)
    requires
        split_on(name, '-').len() >= 3,
    ensures
        pod_id_of(name) matches Ok(id) ==> id >= 1,
{
}

/// A pod whose third `-`-separated piece spells the ordinal `v` gets node
/// id `v + 1`, so distinct ordinals give distinct ids.
pub proof fn lemma_pod_id_is_ordinal_plus_one(name: Seq<char>, other: Seq<char>, v: nat, w: nat)
    requires
        split_on(name, '-').len() >= 3,
        unsigned_text_value(split_on(name, '-')[2]) == Some(v),
        v < u64::MAX,
    ensures
        pod_id_of(name) == Ok::<nat, PodIdError>(v + 1),
        split_on(other, '-').len() >= 3 && unsigned_text_value(split_on(other, '-')[2]) == Some(w)
            && w < u64::MAX && v != w ==> pod_id_of(other) != pod_id_of(name),
{
}

/// The replica with stateful-set ordinal `n` (named `kv-store-n`) gets node
/// id `n + 1`.
pub proof fn lemma_replica_pod_id(n: u64)
    requires
        n < u64::MAX,
    ensures
        pod_id_of("kv-store-"@ + decimal_text(n as nat)) == Ok::<nat, PodIdError>((n + 1) as nat),
{
    reveal_strlit("kv-store-");
    let d = decimal_text(n as nat);
    lemma_decimal_round_trip(n as nat);
    lemma_decimal_text_all_digits(n as nat);
    assert(!d.contains('-')) by {
        if d.contains('-') {
            let w = choose|w: int| 0 <= w < d.len() && d[w] == '-';
            assert(is_digit(d[w]));
        }
    }
    let kv = seq!['k', 'v'];
    let store = seq!['s', 't', 'o', 'r', 'e'];
    assert(!kv.contains('-')) by {
        if kv.contains('-') {
            let w = choose|w: int| 0 <= w < kv.len() && kv[w] == '-';
        }
    }
    assert(!store.contains('-')) by {
        if store.contains('-') {
            let w = choose|w: int| 0 <= w < store.len() && store[w] == '-';
        }
    }
    let name = "kv-store-"@ + d;
    assert(name =~= kv + seq!['-'] + (store + seq!['-'] + d));
    lemma_split_after_piece(kv, '-', store + seq!['-'] + d);
    lemma_split_after_piece(store, '-', d);
    lemma_split_without_sep(d, '-');
    assert(split_on(name, '-') =~= seq![kv, store, d]);
}

/// The role of the pod named `pod_name`.
pub fn pod_role(pod_name: &str) -> (role: PodRole)
    ensures
        role == role_of(pod_name@),
{
    if starts_with(pod_name, "kv-store") {
        PodRole::KvStore
    } else if starts_with(pod_name, "net") {
        PodRole::NetworkActor
    } else {
        PodRole::Other
    }
}

/// The node id of the pod named `pod_name`.
pub fn pod_id_from_name(pod_name: &str) -> (id: Result<u64, PodIdError>)
    ensures
        id matches Ok(v) ==> pod_id_of(pod_name@) == Ok::<nat, PodIdError>(v as nat),
        id matches Err(e) ==> pod_id_of(pod_name@) == Err::<nat, PodIdError>(e),
{
    match split_field(pod_name, '-', 2) {
        None => Ok(0),
        Some(piece) => match parse_u64(piece.as_str()) {
            None => Err(PodIdError::NotANumber),
            Some(x) => if x == u64::MAX {
                Err(PodIdError::Overflow)
            } else {
                Ok(x + 1)
            },
        },
    }
}

/// The address this node dials to reach the pod named `pod_name`.
pub fn connection_address(pod_name: &str, my_pid: u64, pod_id: u64) -> (addr: String)
    ensures
        addr@ == connection_addr_text(pod_name@, my_pid as nat, pod_id as nat),
{
    if starts_with(pod_name, "net") {
        get_my_api_addr(my_pid)
    } else {
        get_peer_addr(my_pid, pod_id)
    }
}

/// What to do when the cluster reports that a pod was added: connect to it
/// when it has a name and an IP and is a replica or the network actor.
pub fn on_pod_added(name: Option<String>, ip: Option<String>) -> (target: Result<Option<PodTarget>, PodIdError>)
    ensures
        match (name, ip) {
            (Some(n), Some(a)) => if role_of(n@) != PodRole::Other {
                match pod_id_of(n@) {
                    Ok(v) => target matches Ok(Some(t)) && t.name@ == n@ && t.ip@ == a@ && t.id == v,
                    Err(e) => target == Err::<Option<PodTarget>, PodIdError>(e),
                }
            } else {
                target matches Ok(None)
            },
            _ => target matches Ok(None),
        },
{
    match (name, ip) {
        (Some(n), Some(a)) => {
            if pod_role(n.as_str()) == PodRole::Other {
                return Ok(None);
            }
            match pod_id_from_name(n.as_str()) {
                Ok(id) => Ok(Some(PodTarget { name: n, ip: a, id })),
                Err(e) => Err(e),
            }
        },
        _ => Ok(None),
    }
}

} // verus!
