use kv_store::config::{load_config, parse_config_id, parse_nodes, parse_pid, ConfigError};
use kv_store::framing::{encode_frame, route, Destination};

#[test]
fn frames_end_in_a_newline() {
    assert_eq!(encode_frame(b"{\"a\":1}".to_vec()), b"{\"a\":1}\n".to_vec());
    assert_eq!(encode_frame(Vec::new()), vec![b'\n']);
}

#[test]
fn frames_read_back_line_by_line() {
    let payloads: Vec<Vec<u8>> = vec![b"one".to_vec(), b"".to_vec(), b"three".to_vec()];
    let mut stream = Vec::new();
    for p in &payloads {
        stream.extend(encode_frame(p.clone()));
    }
    let lines: Vec<Vec<u8>> = stream.split_inclusive(|b| *b == b'\n').map(|l| l.to_vec()).collect();
    let expected: Vec<Vec<u8>> = payloads.iter().map(|p| encode_frame(p.clone())).collect();
    assert_eq!(lines, expected);
}

#[test]
fn zero_is_the_client() {
    assert_eq!(route(0), Destination::Client);
    assert_eq!(route(3), Destination::Peer(3));
}

fn s(x: &str) -> Option<String> {
    Some(x.to_string())
}

#[test]
fn node_lists() {
    assert_eq!(parse_nodes(s("[1,2,3]")).unwrap(), vec![1, 2, 3]);
    assert_eq!(parse_nodes(s(" [ 4 ] ")).unwrap(), vec![4]);
    assert_eq!(parse_nodes(s("[]")).unwrap(), Vec::<u64>::new());
    assert_eq!(parse_nodes(None).unwrap(), Vec::<u64>::new());
    assert_eq!(parse_nodes(s("1,2")).unwrap_err(), ConfigError::WrongNodesFormat);
    assert_eq!(parse_nodes(s("[-1]")).unwrap_err(), ConfigError::WrongNodesFormat);
}

#[test]
fn node_ids() {
    assert_eq!(parse_pid(s("2")), Ok(2));
    assert_eq!(parse_pid(s("0")), Err(ConfigError::ZeroPid));
    assert_eq!(parse_pid(s("two")), Err(ConfigError::InvalidPid));
    assert_eq!(parse_pid(None), Err(ConfigError::MissingPid));
    assert_eq!(parse_config_id(s("1")), Ok(1));
    assert_eq!(parse_config_id(s("0")), Err(ConfigError::ZeroConfigId));
    assert_eq!(parse_config_id(s("4294967296")), Err(ConfigError::InvalidConfigId));
    assert_eq!(parse_config_id(None), Err(ConfigError::MissingConfigId));
}

#[test]
fn whole_configuration() {
    let c = load_config(s("[1,2,3]"), s("2"), s("1")).unwrap();
    assert_eq!((c.nodes, c.pid, c.config_id), (vec![1, 2, 3], 2, 1));
    assert_eq!(load_config(s("bad"), None, s("0")).unwrap_err(), ConfigError::MissingPid);
    assert_eq!(load_config(s("bad"), s("1"), s("0")).unwrap_err(), ConfigError::ZeroConfigId);
    assert_eq!(load_config(s("bad"), s("1"), s("1")).unwrap_err(), ConfigError::WrongNodesFormat);
    assert_eq!(load_config(None, s("1"), s("1")).unwrap().nodes, Vec::<u64>::new());
}
