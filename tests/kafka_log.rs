use gossip_nodes::kafka_log::{Body, LogError, Message, Node};

fn node() -> Node {
    let mut n = Node::new();
    n.handle_message(Message {
        src: "c1".into(),
        dest: "n1".into(),
        body: Body::Init { msg_id: 1, node_id: "n1".into(), node_ids: vec!["n1".into(), "n2".into()] },
    });
    n
}

fn send(n: &mut Node, key: &str, msg: u64) -> u64 {
    let out = n.handle_message(Message {
        src: "c1".into(),
        dest: "n1".into(),
        body: Body::Send { msg_id: 5, key: key.into(), msg },
    });
    match out[0].body {
        Body::SendOk { offset, in_reply_to, .. } => {
            assert_eq!(in_reply_to, 5);
            offset
        }
        _ => panic!("expected send_ok"),
    }
}

fn offsets(pairs: &[(&str, u64)]) -> Vec<(String, u64)> {
    pairs.iter().map(|(k, o)| (k.to_string(), *o)).collect()
}

#[test]
fn log_init_records_identity() {
    let n = node();
    assert!(n.is_initialized());
    assert_eq!(n.id(), "n1");
    assert_eq!(n.peers(), &vec!["n1".to_string(), "n2".to_string()]);
    assert_eq!(n.cur_id(), 2);
}

#[test]
fn send_poll_commit_list_scenario() {
    let mut n = node();
    assert_eq!(send(&mut n, "k", 10), 0);
    assert_eq!(send(&mut n, "k", 20), 1);
    let out = n.handle_message(Message {
        src: "c1".into(),
        dest: "n1".into(),
        body: Body::Poll { msg_id: 6, offsets: offsets(&[("k", 0), ("k", 1)]) },
    });
    let Body::PollOk { msgs, .. } = &out[0].body else {
        panic!("expected poll_ok");
    };
    assert_eq!(
        msgs,
        &vec![("k".to_string(), vec![(0, 10)]), ("k".to_string(), vec![(1, 20)])]
    );
    let out = n.handle_message(Message {
        src: "c1".into(),
        dest: "n1".into(),
        body: Body::CommitOffsets { msg_id: 7, offsets: offsets(&[("k", 1)]) },
    });
    assert!(matches!(out[0].body, Body::CommitOffsetsOk { in_reply_to: 7, .. }));
    let out = n.handle_message(Message {
        src: "c1".into(),
        dest: "n1".into(),
        body: Body::ListCommittedOffsets { msg_id: 8, keys: vec!["k".into()] },
    });
    let Body::ListCommittedOffsetsOk { offsets, .. } = &out[0].body else {
        panic!("expected list_committed_offsets_ok");
    };
    assert_eq!(offsets, &vec![("k".to_string(), 2)]);
}

#[test]
fn appends_get_consecutive_offsets_per_key() {
    let mut n = node();
    let values = [4u64, 8, 15, 16, 23];
    for (i, v) in values.iter().enumerate() {
        assert_eq!(n.append(&"a".to_string(), *v), i as u64);
    }
    assert_eq!(n.append(&"b".to_string(), 42), 0);
    for (i, v) in values.iter().enumerate() {
        assert_eq!(n.value_at(&"a".to_string(), i as u64), Ok(*v));
    }
    assert_eq!(n.value_at(&"b".to_string(), 0), Ok(42));
}

#[test]
fn late_commit_never_lowers_the_watermark() {
    let mut n = node();
    for v in 0..6u64 {
        n.append(&"k".to_string(), v);
    }
    assert_eq!(n.commit(&offsets(&[("k", 5)])), Ok(()));
    assert_eq!(n.commit(&offsets(&[("k", 2)])), Ok(()));
    assert_eq!(n.list_committed(&vec!["k".to_string()]), vec![("k".to_string(), 6)]);
}

#[test]
fn poll_unknown_key_is_an_error_reply() {
    let mut n = node();
    let out = n.handle_message(Message {
        src: "c1".into(),
        dest: "n1".into(),
        body: Body::Poll { msg_id: 3, offsets: offsets(&[("nope", 0)]) },
    });
    assert_eq!(out[0].body, Body::Error { msg_id: 2, in_reply_to: 3, error: LogError::UnknownKey });
}

#[test]
fn poll_past_the_end_is_offset_not_found() {
    let mut n = node();
    n.append(&"k".to_string(), 1);
    assert_eq!(n.poll(&offsets(&[("k", 0), ("k", 1)])), Err(LogError::OffsetNotFound));
    assert_eq!(n.poll(&offsets(&[("k", 1), ("x", 0)])), Err(LogError::OffsetNotFound));
    assert_eq!(n.poll(&offsets(&[("x", 0), ("k", 1)])), Err(LogError::UnknownKey));
}

#[test]
fn failed_commit_changes_nothing() {
    let mut n = node();
    n.append(&"k".to_string(), 1);
    n.append(&"k".to_string(), 2);
    assert_eq!(n.commit(&offsets(&[("k", 0), ("zz", 0)])), Err(LogError::UnknownKey));
    assert_eq!(n.commit(&offsets(&[("k", 0), ("k", 2)])), Err(LogError::OffsetNotFound));
    assert_eq!(n.list_committed(&vec!["k".to_string()]), vec![("k".to_string(), 0)]);
}

#[test]
fn list_unknown_key_reports_zero() {
    let n = node();
    assert_eq!(n.list_committed(&vec!["ghost".to_string()]), vec![("ghost".to_string(), 0)]);
}

#[test]
fn replies_are_not_answered() {
    let mut n = node();
    let out = n.handle_message(Message {
        src: "n2".into(),
        dest: "n1".into(),
        body: Body::SendOk { msg_id: 1, in_reply_to: 1, offset: 0 },
    });
    assert!(out.is_empty());
    assert_eq!(n.cur_id(), 2);
}
