use gossip_nodes::counter::{Body, Message, Node};

fn init(node: &mut Node, id: &str, ids: &[&str]) {
    node.handle_message(Message {
        src: "c1".into(),
        dest: id.into(),
        body: Body::Init {
            msg_id: 1,
            node_id: id.into(),
            node_ids: ids.iter().map(|s| s.to_string()).collect(),
        },
    });
}

fn add(node: &mut Node, delta: u64) -> Vec<Message> {
    node.handle_message(Message {
        src: "c1".into(),
        dest: "n".into(),
        body: Body::Add { msg_id: 2, delta },
    })
}

fn read(node: &mut Node) -> u64 {
    let out = node.handle_message(Message {
        src: "c1".into(),
        dest: "n".into(),
        body: Body::Read { msg_id: 3 },
    });
    match out[0].body {
        Body::ReadOk { value, in_reply_to, .. } => {
            assert_eq!(in_reply_to, 3);
            value
        }
        _ => panic!("expected read_ok"),
    }
}

#[test]
fn counter_new_node() {
    let node = Node::new();
    assert!(!node.is_initialized());
    assert_eq!(node.cur_id(), 1);
}

#[test]
fn single_node_reads_its_increment() {
    let mut node = Node::new();
    init(&mut node, "n1", &["n1"]);
    let out = add(&mut node, 5);
    assert_eq!(out[0].body, Body::AddOk { in_reply_to: 2, msg_id: 2 });
    assert_eq!(read(&mut node), 5);
}

#[test]
fn init_reply_and_seeding() {
    let mut node = Node::new();
    let out = node.handle_message(Message {
        src: "c1".into(),
        dest: "n1".into(),
        body: Body::Init { msg_id: 9, node_id: "n1".into(), node_ids: vec!["n2".into()] },
    });
    assert_eq!(
        out,
        vec![Message { src: "n1".into(), dest: "c1".into(), body: Body::InitOk { msg_id: 1, in_reply_to: 9 } }]
    );
    assert_eq!(node.id(), "n1");
    assert_eq!(node.contribution(&"n1".to_string()), 0);
    assert_eq!(node.contribution(&"n2".to_string()), 0);
    add(&mut node, 4);
    assert_eq!(read(&mut node), 4);
}

#[test]
fn gossip_sends_every_entry_to_every_node() {
    let mut node = Node::new();
    init(&mut node, "n1", &["n1", "n2"]);
    add(&mut node, 3);
    let first = node.cur_id();
    let out = node.gossip();
    assert_eq!(out.len(), 4);
    let expected = [("n1", "n1", 3), ("n2", "n1", 3), ("n1", "n2", 0), ("n2", "n2", 0)];
    for (k, (dest, about, value)) in expected.iter().enumerate() {
        assert_eq!(
            out[k],
            Message {
                src: "n1".into(),
                dest: dest.to_string(),
                body: Body::Gossip { msg_id: first + k as u64, value: *value, node: about.to_string() },
            }
        );
    }
    assert_eq!(node.cur_id(), first + 4);
}

#[test]
fn gossip_merges_by_maximum() {
    let mut node = Node::new();
    init(&mut node, "n1", &["n1", "n2"]);
    let gossip = |value: u64| Message {
        src: "n2".into(),
        dest: "n1".into(),
        body: Body::Gossip { msg_id: 1, value, node: "n2".into() },
    };
    assert!(node.handle_message(gossip(7)).is_empty());
    assert_eq!(node.contribution(&"n2".to_string()), 7);
    node.handle_message(gossip(4));
    assert_eq!(node.contribution(&"n2".to_string()), 7);
    node.handle_message(gossip(7));
    assert_eq!(read(&mut node), 7);
}

#[test]
fn gossip_about_unlisted_node_is_recorded() {
    let mut node = Node::new();
    init(&mut node, "n1", &["n1"]);
    node.merge(&"n9".to_string(), 11);
    assert_eq!(node.contribution(&"n9".to_string()), 11);
    assert_eq!(node.read_value(), 11);
}

#[test]
fn merge_order_does_not_matter() {
    let entries = [("n2", 4u64), ("n3", 9), ("n2", 6), ("n3", 1)];
    let mut a = Node::new();
    let mut b = Node::new();
    init(&mut a, "n1", &["n1", "n2", "n3"]);
    init(&mut b, "n1", &["n1", "n2", "n3"]);
    for (n, v) in entries.iter() {
        a.merge(&n.to_string(), *v);
    }
    for (n, v) in entries.iter().rev() {
        b.merge(&n.to_string(), *v);
        b.merge(&n.to_string(), *v);
    }
    for n in ["n1", "n2", "n3"] {
        assert_eq!(a.contribution(&n.to_string()), b.contribution(&n.to_string()));
    }
    assert_eq!(a.read_value(), 15);
    assert_eq!(b.read_value(), 15);
}

#[test]
fn counters_converge_after_full_gossip() {
    let ids = ["n1", "n2", "n3"];
    let mut nodes: Vec<Node> = ids.iter().map(|_| Node::new()).collect();
    for (i, node) in nodes.iter_mut().enumerate() {
        init(node, ids[i], &ids);
    }
    add(&mut nodes[0], 2);
    add(&mut nodes[0], 3);
    add(&mut nodes[1], 10);
    add(&mut nodes[2], 1);
    let mut wire = Vec::new();
    for node in nodes.iter_mut() {
        wire.extend(node.gossip());
    }
    for m in wire {
        let dest = ids.iter().position(|id| *id == m.dest).unwrap();
        nodes[dest].handle_message(m);
    }
    for node in nodes.iter_mut() {
        assert_eq!(read(node), 16);
    }
}

#[test]
fn add_that_would_overflow_is_detected() {
    let mut node = Node::new();
    init(&mut node, "n1", &["n1"]);
    add(&mut node, u64::MAX - 1);
    assert!(node.check_fits(&Body::Add { msg_id: 1, delta: 1 }));
    assert!(!node.check_fits(&Body::Add { msg_id: 1, delta: 2 }));
    assert!(!node.check_fits(&Body::Gossip { msg_id: 1, value: 2, node: "n2".into() }));
    assert!(node.check_fits(&Body::Gossip { msg_id: 1, value: 1, node: "n2".into() }));
}
