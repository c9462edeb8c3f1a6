use kv_store::addresses::{db_path, lock_file_path, reconfigured_db_path, reconfigured_storage_path, storage_path};
use kv_store::discovery::{connection_address, on_pod_added, pod_id_from_name, pod_role, PodIdError, PodRole};
use kv_store::{get_my_api_addr, get_peer_addr};

#[test]
fn api_address_of_a_node() {
    assert_eq!(get_my_api_addr(1), "net.default.svc.cluster.local:8001");
    assert_eq!(get_my_api_addr(3), "net.default.svc.cluster.local:8003");
}

#[test]
fn peer_address_joins_both_ids() {
    assert_eq!(get_peer_addr(1, 2), "net.default.svc.cluster.local:8012");
    assert_eq!(get_peer_addr(3, 1), "net.default.svc.cluster.local:8031");
}

#[test]
fn storage_locations() {
    assert_eq!(storage_path(2, 1), "/data/omnipaxos_storage_2_1");
    assert_eq!(db_path(1), "data/db1");
    assert_eq!(reconfigured_storage_path(4), "/data/omnipaxos_storage_4");
    assert_eq!(reconfigured_db_path(), "/data/db");
    assert_eq!(lock_file_path("data/db1"), "data/db1/LOCK");
    assert_eq!(lock_file_path(&storage_path(2, 1)), "/data/omnipaxos_storage_2_1/LOCK");
}

#[test]
fn pod_ids_come_from_the_ordinal() {
    assert_eq!(pod_id_from_name("kv-store-0"), Ok(1));
    assert_eq!(pod_id_from_name("kv-store-2"), Ok(3));
    assert_eq!(pod_id_from_name("kv-store-2-extra"), Ok(3));
    assert_eq!(pod_id_from_name("net"), Ok(0));
    assert_eq!(pod_id_from_name("kv-store"), Ok(0));
    assert_eq!(pod_id_from_name("kv-store-x"), Err(PodIdError::NotANumber));
    assert_eq!(pod_id_from_name("kv-store-"), Err(PodIdError::NotANumber));
    assert_eq!(pod_id_from_name("kv-store-18446744073709551615"), Err(PodIdError::Overflow));
    assert_eq!(pod_id_from_name("kv-store-18446744073709551616"), Err(PodIdError::NotANumber));
}

#[test]
fn pod_roles() {
    assert_eq!(pod_role("kv-store-1"), PodRole::KvStore);
    assert_eq!(pod_role("net"), PodRole::NetworkActor);
    assert_eq!(pod_role("network-actor"), PodRole::NetworkActor);
    assert_eq!(pod_role("coredns-5d78c9869d-abcde"), PodRole::Other);
}

#[test]
fn connection_addresses() {
    assert_eq!(connection_address("net", 2, 0), "net.default.svc.cluster.local:8002");
    assert_eq!(connection_address("kv-store-0", 2, 1), "net.default.svc.cluster.local:8021");
}

#[test]
fn added_pods() {
    let t = on_pod_added(Some("kv-store-1".to_string()), Some("10.0.0.5".to_string())).unwrap().unwrap();
    assert_eq!((t.name.as_str(), t.ip.as_str(), t.id), ("kv-store-1", "10.0.0.5", 2));
    let t = on_pod_added(Some("net".to_string()), Some("10.0.0.9".to_string())).unwrap().unwrap();
    assert_eq!(t.id, 0);
    assert!(on_pod_added(Some("kv-store-1".to_string()), None).unwrap().is_none());
    assert!(on_pod_added(None, Some("10.0.0.5".to_string())).unwrap().is_none());
    assert!(on_pod_added(Some("coredns".to_string()), Some("10.0.0.1".to_string())).unwrap().is_none());
    assert_eq!(
        on_pod_added(Some("kv-store-one".to_string()), Some("10.0.0.5".to_string())).err(),
        Some(PodIdError::NotANumber)
    );
}
