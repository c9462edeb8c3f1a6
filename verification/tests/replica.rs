use kv_store::liveness::{Liveness, HEARTBEAT_TIMEOUT_NANOS};
use kv_store::server::{DecidedEntry, RequestError, RequestOutcome, SNAPSHOT_INTERVAL};
use kv_store::{APIResponse, Database, KVCommand, KeyValue, Server};

fn put(k: &str, v: &str) -> KVCommand {
    KVCommand::Put(KeyValue { key: k.to_string(), value: v.to_string() })
}

fn get(db: &mut Database, k: &str) -> Option<String> {
    db.handle_command(KVCommand::Get(k.to_string()))
}

#[test]
fn store_reads_its_writes() {
    let mut db = Database::open("data/db1".to_string(), Vec::new());
    assert_eq!(get(&mut db, "a"), None);
    assert_eq!(db.handle_command(put("a", "1")), None);
    assert_eq!(get(&mut db, "a"), Some("1".to_string()));
    db.handle_command(put("a", "2"));
    db.handle_command(put("b", "3"));
    assert_eq!(get(&mut db, "a"), Some("2".to_string()));
    assert_eq!(db.handle_command(KVCommand::Delete("a".to_string())), None);
    assert_eq!(get(&mut db, "a"), None);
    assert_eq!(get(&mut db, "b"), Some("3".to_string()));
    assert_eq!(db.handle_command(KVCommand::Reconfigure("4".to_string())), None);
    assert_eq!(get(&mut db, "b"), Some("3".to_string()));
}

#[test]
fn requests_are_answered_or_proposed() {
    let mut db = Database::open("data/db1".to_string(), Vec::new());
    db.handle_command(put("a", "1"));
    let mut server = Server::new(db, 1, 1, vec![1, 2, 3]);
    match server.handle_api_request(KVCommand::Get("a".to_string())) {
        RequestOutcome::Reply(APIResponse::Get(k, v)) => assert_eq!((k.as_str(), v), ("a", Some("1".to_string()))),
        other => panic!("unexpected {:?}", other),
    }
    match server.handle_api_request(KVCommand::Get("z".to_string())) {
        RequestOutcome::Reply(APIResponse::Get(k, v)) => assert_eq!((k.as_str(), v), ("z", None)),
        other => panic!("unexpected {:?}", other),
    }
    match server.handle_api_request(KVCommand::Reconfigure("4".to_string())) {
        RequestOutcome::Reconfigure(plan) => assert_eq!((plan.configuration_id, plan.nodes), (2, vec![1, 2, 3, 4])),
        other => panic!("unexpected {:?}", other),
    }
    match server.handle_api_request(KVCommand::Reconfigure("5".to_string())) {
        RequestOutcome::Reconfigure(plan) => assert_eq!((plan.configuration_id, plan.nodes), (2, vec![1, 2, 3, 5])),
        other => panic!("unexpected {:?}", other),
    }
    match server.handle_api_request(KVCommand::Reconfigure("2".to_string())) {
        RequestOutcome::Reconfigure(plan) => assert_eq!((plan.configuration_id, plan.nodes), (2, vec![1, 2, 3])),
        other => panic!("unexpected {:?}", other),
    }
    for bad in ["", "four", "0", "-4"] {
        match server.handle_api_request(KVCommand::Reconfigure(bad.to_string())) {
            RequestOutcome::Rejected(e) => assert_eq!(e, RequestError::NotANodeId),
            other => panic!("unexpected {:?}", other),
        }
    }
    let mut last = Server::new(Database::open("d".to_string(), Vec::new()), 1, u32::MAX, vec![1]);
    match last.handle_api_request(KVCommand::Reconfigure("4".to_string())) {
        RequestOutcome::Rejected(e) => assert_eq!(e, RequestError::NoNewerConfigId),
        other => panic!("unexpected {:?}", other),
    }
    match server.handle_api_request(put("b", "2")) {
        RequestOutcome::Propose(KVCommand::Put(kv)) => assert_eq!((kv.key.as_str(), kv.value.as_str()), ("b", "2")),
        other => panic!("unexpected {:?}", other),
    }
    match server.handle_api_request(KVCommand::Delete("a".to_string())) {
        RequestOutcome::Propose(KVCommand::Delete(k)) => assert_eq!(k, "a"),
        other => panic!("unexpected {:?}", other),
    }
}

#[test]
fn decided_index_advances_and_snapshots() {
    assert_eq!(SNAPSHOT_INTERVAL, 5);
    let mut server = Server::new(Database::open("data/db1".to_string(), Vec::new()), 2, 1, vec![1, 2, 3]);
    let step = server.on_decided_index(3).unwrap();
    assert_eq!(step.read_from, 0);
    assert!(matches!(step.reply, APIResponse::Decided(3)));
    assert_eq!(step.snapshot, None);
    assert!(server.on_decided_index(3).is_none());
    assert!(server.on_decided_index(2).is_none());
    assert_eq!(server.last_decided_idx(), 3);
    let step = server.on_decided_index(7).unwrap();
    assert_eq!(step.read_from, 3);
    assert_eq!(step.snapshot, Some(5));
    assert_eq!(server.on_decided_index(9).unwrap().snapshot, None);
    assert_eq!(server.on_decided_index(10).unwrap().snapshot, Some(10));
    assert_eq!(server.on_decided_index(24).unwrap().snapshot, Some(20));
    assert_eq!(server.last_decided_idx(), 24);
}

#[test]
fn decided_entries_are_applied_in_order() {
    let mut server = Server::new(Database::open("data/db1".to_string(), Vec::new()), 2, 1, vec![1, 2, 3]);
    let entries = vec![
        DecidedEntry::Command(put("a", "1")),
        DecidedEntry::Other,
        DecidedEntry::Command(put("a", "2")),
        DecidedEntry::StopSign { next_config_id: 2, next_nodes: vec![1, 2, 3, 4], decided: false },
        DecidedEntry::StopSign { next_config_id: 2, next_nodes: vec![1, 2, 3, 4], decided: true },
        DecidedEntry::StopSign { next_config_id: 1, next_nodes: vec![1, 2], decided: true },
        DecidedEntry::StopSign { next_config_id: 3, next_nodes: vec![5, 6], decided: true },
        DecidedEntry::Command(put("b", "3")),
        DecidedEntry::Command(KVCommand::Get("b".to_string())),
    ];
    let applied = server.update_database(&entries);
    assert_eq!(applied.joins, vec![4]);
    let writes: Vec<String> = applied
        .writes
        .iter()
        .map(|c| match c {
            KVCommand::Put(kv) => format!("{}={}", kv.key, kv.value),
            other => format!("{:?}", other),
        })
        .collect();
    assert_eq!(writes, vec!["a=1", "a=2", "b=3"]);
    match server.handle_api_request(KVCommand::Get("a".to_string())) {
        RequestOutcome::Reply(APIResponse::Get(_, v)) => assert_eq!(v, Some("2".to_string())),
        other => panic!("unexpected {:?}", other),
    }
    match server.handle_api_request(KVCommand::Get("b".to_string())) {
        RequestOutcome::Reply(APIResponse::Get(_, v)) => assert_eq!(v, Some("3".to_string())),
        other => panic!("unexpected {:?}", other),
    }
}

#[test]
fn entries_without_commands_leave_the_store() {
    let mut stored = Database::open("data/db1".to_string(), Vec::new());
    stored.handle_command(put("x", "old"));
    let mut server = Server::new(stored, 2, 1, vec![1, 2, 3]);
    let applied = server.update_database(&vec![
        DecidedEntry::Other,
        DecidedEntry::StopSign { next_config_id: 2, next_nodes: vec![3, 4], decided: true },
        DecidedEntry::StopSign { next_config_id: 1, next_nodes: vec![2], decided: true },
    ]);
    assert!(applied.writes.is_empty());
    assert!(applied.joins.is_empty());
    match server.handle_api_request(KVCommand::Get("x".to_string())) {
        RequestOutcome::Reply(APIResponse::Get(_, got)) => assert_eq!(got, Some("old".to_string())),
        other => panic!("unexpected {:?}", other),
    }
}

#[test]
fn store_opens_with_what_its_path_holds() {
    let stored = vec![
        KeyValue { key: "a".to_string(), value: "1".to_string() },
        KeyValue { key: "b".to_string(), value: "2".to_string() },
        KeyValue { key: "a".to_string(), value: "3".to_string() },
    ];
    let mut db = Database::open("data/db7".to_string(), stored);
    assert_eq!(db.path(), "data/db7");
    assert_eq!(get(&mut db, "a"), Some("3".to_string()));
    assert_eq!(get(&mut db, "b"), Some("2".to_string()));
    let server = Server::new(db, 1, 7, vec![1]);
    assert_eq!(server.db_path(), "data/db7");
}

#[test]
fn silent_peers_expire_and_are_retried_until_heard() {
    let t = HEARTBEAT_TIMEOUT_NANOS;
    assert_eq!(t, 100_000_000);
    let mut l = Liveness::new();
    l.record_heartbeat(1, 0);
    l.record_heartbeat(2, 50);
    let out = l.on_tick(t - 1, true);
    assert!(out.reconnect.is_empty());
    assert!(!out.reconnect_self);
    let out = l.on_tick(t, false);
    assert_eq!(out.reconnect, vec![1]);
    assert!(out.reconnect_self);
    let mut again = l.on_tick(t + 50, true).reconnect;
    again.sort();
    assert_eq!(again, vec![1, 2]);
    l.record_heartbeat(1, t + 60);
    assert_eq!(l.on_tick(t + 70, true).reconnect, vec![2]);
    // a clock that reads earlier than the last heartbeat counts as no time elapsed
    let mut l = Liveness::new();
    l.record_heartbeat(7, 1000);
    assert!(l.on_tick(10, true).reconnect.is_empty());
}

#[test]
fn server_tracks_peer_liveness() {
    let mut server = Server::new(Database::open("data/db1".to_string(), Vec::new()), 2, 1, vec![1, 2, 3]);
    server.record_heartbeat(3, 10);
    assert!(server.on_tick(20, true).reconnect.is_empty());
    assert_eq!(server.on_tick(10 + HEARTBEAT_TIMEOUT_NANOS, true).reconnect, vec![3]);
}
