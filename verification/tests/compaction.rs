use kv_store::server::DecidedEntry;
use kv_store::snapshot::{squash, KvSnapshot};
use kv_store::{Database, KVCommand, KeyValue, Server};

fn put(k: &str, v: &str) -> KVCommand {
    KVCommand::Put(KeyValue { key: k.to_string(), value: v.to_string() })
}

fn del(k: &str) -> KVCommand {
    KVCommand::Delete(k.to_string())
}

fn describe(cmds: &[KVCommand]) -> Vec<String> {
    cmds.iter()
        .map(|c| match c {
            KVCommand::Put(kv) => format!("put {} {}", kv.key, kv.value),
            KVCommand::Delete(k) => format!("delete {}", k),
            KVCommand::Get(k) => format!("get {}", k),
            KVCommand::Reconfigure(k) => format!("reconfigure {}", k),
        })
        .collect()
}

fn read_all(db: &mut Database, keys: &[&str]) -> Vec<Option<String>> {
    keys.iter().map(|k| db.handle_command(KVCommand::Get(k.to_string()))).collect()
}

fn apply(db: &mut Database, cmds: &[KVCommand]) {
    for c in cmds {
        db.handle_command(c.clone_command());
    }
}

#[test]
fn squash_keeps_the_last_write_per_key() {
    let cmds = vec![
        put("a", "1"),
        put("b", "2"),
        KVCommand::Get("a".to_string()),
        put("a", "3"),
        del("b"),
        KVCommand::Reconfigure("4".to_string()),
        put("c", "5"),
    ];
    assert_eq!(describe(&squash(&cmds)), vec!["put a 3", "delete b", "put c 5"]);
    assert!(squash(&Vec::new()).is_empty());
}

#[test]
fn snapshot_leaves_the_store_as_the_log_does() {
    let cmds = vec![put("a", "1"), put("b", "2"), del("a"), put("b", "3"), del("z")];
    let snap = KvSnapshot::create(&cmds);
    let keys = ["a", "b", "z", "q"];
    let mut start = Database::open("data/db1".to_string(), Vec::new());
    start.handle_command(put("a", "0"));
    start.handle_command(put("q", "9"));
    start.handle_command(put("z", "8"));
    let mut by_log = Database::open("data/db1".to_string(), Vec::new());
    apply(&mut by_log, &[put("a", "0"), put("q", "9"), put("z", "8")]);
    apply(&mut by_log, &cmds);
    apply(&mut start, snap.writes());
    assert_eq!(read_all(&mut start, &keys), read_all(&mut by_log, &keys));
    assert_eq!(read_all(&mut start, &keys), vec![None, Some("3".to_string()), None, Some("9".to_string())]);
}

#[test]
fn merged_snapshots_compose() {
    let first = vec![put("a", "1"), del("b"), put("c", "2")];
    let second = vec![put("b", "3"), del("c"), put("d", "4")];
    let mut merged = KvSnapshot::create(&first);
    merged.merge(KvSnapshot::create(&second));
    assert_eq!(describe(merged.writes()), vec!["put a 1", "put b 3", "delete c", "put d 4"]);
    let keys = ["a", "b", "c", "d"];
    let mut one = Database::open("data/db1".to_string(), Vec::new());
    apply(&mut one, &[put("b", "0"), put("c", "0")]);
    apply(&mut one, merged.writes());
    let mut two = Database::open("data/db1".to_string(), Vec::new());
    apply(&mut two, &[put("b", "0"), put("c", "0")]);
    apply(&mut two, &first);
    apply(&mut two, &second);
    assert_eq!(read_all(&mut one, &keys), read_all(&mut two, &keys));
}

#[test]
fn reading_the_log_in_batches_gives_the_same_store() {
    let log = || {
        vec![
            DecidedEntry::Command(put("a", "1")),
            DecidedEntry::Command(put("b", "2")),
            DecidedEntry::Other,
            DecidedEntry::Command(del("a")),
            DecidedEntry::Command(put("b", "5")),
        ]
    };
    let mut whole = Server::new(Database::open("data/db1".to_string(), Vec::new()), 1, 1, vec![1, 2, 3]);
    whole.update_database(&log());
    let mut batched = Server::new(Database::open("data/db1".to_string(), Vec::new()), 1, 1, vec![1, 2, 3]);
    let mut entries = log();
    let tail = entries.split_off(2);
    batched.update_database(&entries);
    batched.update_database(&tail);
    for k in ["a", "b"] {
        let read = |s: &mut Server| match s.handle_api_request(KVCommand::Get(k.to_string())) {
            kv_store::server::RequestOutcome::Reply(kv_store::APIResponse::Get(_, v)) => v,
            _ => panic!("not a reply"),
        };
        assert_eq!(read(&mut whole), read(&mut batched));
    }
}

#[test]
fn catching_up_from_a_snapshot_after_a_prefix() {
    let run = vec![put("a", "1"), put("b", "2"), del("a"), put("c", "3"), put("b", "4")];
    let keys = ["a", "b", "c", "z"];
    for i in 0..=run.len() {
        let mut caught_up = Database::open("d".to_string(), Vec::new());
        caught_up.handle_command(put("z", "0"));
        apply(&mut caught_up, &run[..i]);
        apply(&mut caught_up, KvSnapshot::create(&run).writes());
        let mut whole = Database::open("d".to_string(), Vec::new());
        whole.handle_command(put("z", "0"));
        apply(&mut whole, &run);
        assert_eq!(read_all(&mut caught_up, &keys), read_all(&mut whole, &keys), "prefix {}", i);
    }
}

#[test]
fn decided_log_read_in_many_stretches() {
    let log: Vec<KVCommand> = (0..12).map(|i| if i % 4 == 3 { del("k1") } else { put(&format!("k{}", i % 3), &i.to_string()) }).collect();
    let mut whole = Server::new(Database::open("d".to_string(), Vec::new()), 1, 1, vec![1]);
    whole.update_database(&log.iter().map(|c| DecidedEntry::Command(c.clone_command())).collect());
    let mut stepped = Server::new(Database::open("d".to_string(), Vec::new()), 1, 1, vec![1]);
    for report in [2u64, 2, 5, 4, 9, 12] {
        if let Some(step) = stepped.on_decided_index(report) {
            let stretch: Vec<DecidedEntry> = log[step.read_from as usize..report as usize]
                .iter()
                .map(|c| DecidedEntry::Command(c.clone_command()))
                .collect();
            stepped.update_database(&stretch);
        }
    }
    for k in ["k0", "k1", "k2"] {
        let read = |s: &mut Server| match s.handle_api_request(KVCommand::Get(k.to_string())) {
            kv_store::server::RequestOutcome::Reply(kv_store::APIResponse::Get(_, v)) => v,
            _ => panic!("not a reply"),
        };
        assert_eq!(read(&mut whole), read(&mut stepped));
    }
}
