use gossip_nodes::broadcast::{Body, Message, Node};

fn init(node: &mut Node) -> Vec<Message> {
    node.handle_message(Message {
        src: "c1".into(),
        dest: "n1".into(),
        body: Body::Init {
            msg_id: 1,
            node_id: "n1".into(),
            node_ids: vec!["n1".into()],
        },
    })
}

fn topology_n1_n2() -> Vec<(String, Vec<String>)> {
    vec![("n1".to_string(), vec!["n2".to_string()])]
}

#[test]
fn test_create_node() {
    let node = Node::new();
    assert_eq!(node.is_initialized(), false);
}

#[test]
fn test_init_node() {
    let mut node = Node::new();
    init(&mut node);
    assert_eq!(node.is_initialized(), true);
    assert_eq!(node.id(), "n1");
}

#[test]
fn test_echo() {
    let mut node = Node::new();
    init(&mut node);
    assert_eq!(
        node.handle_message(Message {
            src: "c1".into(),
            dest: "n1".into(),
            body: Body::Echo {
                msg_id: 1,
                echo: "Hello fly.io".into(),
            }
        }),
        vec![Message {
            src: "n1".into(),
            dest: "c1".into(),
            body: Body::EchoOk {
                msg_id: 2,
                in_reply_to: 1,
                echo: "Hello fly.io".into(),
            }
        }]
    )
}

#[test]
fn test_increasing_message_id() {
    let mut node = Node::new();
    assert_eq!(node.cur_id(), 0);
    init(&mut node);
    assert_eq!(node.cur_id(), 1);
}

#[test]
fn test_unique_id_generation() {
    let mut node = Node::new();
    init(&mut node);
    let Body::GenerateOk { id, in_reply_to, .. } = node.handle_message(Message {
        src: "c1".into(),
        dest: "n1".into(),
        body: Body::Generate { msg_id: 1 },
    })[0]
        .body
    else {
        panic!("Generate didn't response with generate_ok");
    };
    assert_eq!(in_reply_to, 1);
    assert_eq!(uuid::Uuid::from_u128(id).get_variant(), uuid::Variant::RFC4122);
}

#[test]
fn test_broadcast_receive() {
    let mut node = Node::new();
    init(&mut node);
    let Body::BroadcastOk { .. } = node.handle_body(&Body::Broadcast {
        msg_id: 1,
        message: 1000,
    }) else {
        panic!("Didn't receive broadcast_ok after sending broadcast message!")
    };
    assert_eq!(node.read(), vec![1000]);
}

#[test]
fn test_duplicates_ignored() {
    let mut node = Node::new();
    init(&mut node);
    let Body::BroadcastOk { .. } = node.handle_body(&Body::Broadcast {
        msg_id: 1,
        message: 1000,
    }) else {
        panic!("Didn't receive broadcast_ok after sending broadcast message!")
    };
    let Body::BroadcastOk { .. } = node.handle_body(&Body::Broadcast {
        msg_id: 2,
        message: 1000,
    }) else {
        panic!("Didn't receive broadcast_ok after sending broadcast message!")
    };
    assert_eq!(node.read(), vec![1000]);
}

#[test]
fn test_broadcast_read() {
    let mut node = Node::new();
    init(&mut node);
    let Body::BroadcastOk { .. } = node.handle_body(&Body::Broadcast {
        msg_id: 1,
        message: 1000,
    }) else {
        panic!("Didn't receive broadcast_ok after sending broadcast message!");
    };
    let Body::ReadOk { messages, .. } = node.handle_body(&Body::Read { msg_id: 1 }) else {
        panic!("Didn't receive read_ok after sending read message!");
    };
    assert_eq!(messages, vec![1000]);
}

#[test]
fn test_receive_topology() {
    let mut node = Node::new();
    init(&mut node);
    let Body::TopologyOk { .. } = node.handle_body(&Body::Topology {
        msg_id: 1,
        topology: Vec::new(),
    }) else {
        panic!("didn't receive topology_ok after sending topology message!");
    };
}

#[test]
fn test_update_peer_list() {
    let mut node = Node::new();
    init(&mut node);
    let Body::TopologyOk { .. } = node.handle_body(&Body::Topology {
        msg_id: 1,
        topology: topology_n1_n2(),
    }) else {
        panic!("didn't receive topology_ok after sending topology message!");
    };
    assert_eq!(node.peers(), &vec!["n2".to_string()]);
}

#[test]
fn test_broadcast_to_peers() {
    let mut node = Node::new();
    init(&mut node);
    let Body::TopologyOk { .. } = node.handle_body(&Body::Topology {
        msg_id: 2,
        topology: topology_n1_n2(),
    }) else {
        panic!("didn't receive topology_ok after sending topology message!");
    };
    let messages = node.handle_message(Message {
        src: "c1".into(),
        dest: "n1".into(),
        body: Body::Broadcast {
            message: 2,
            msg_id: 3,
        },
    });
    assert_eq!(
        messages[0],
        Message {
            src: "n1".into(),
            dest: "n2".into(),
            body: Body::Broadcast {
                message: 2,
                msg_id: 2,
            }
        }
    );
    assert_eq!(
        messages[1],
        Message {
            src: "n1".into(),
            dest: "c1".into(),
            body: Body::BroadcastOk {
                msg_id: 3,
                in_reply_to: 3
            }
        }
    );
}

#[test]
fn test_broadcast_not_sent_if_key_already_exists() {
    let mut node = Node::new();
    init(&mut node);
    let Body::TopologyOk { .. } = node.handle_body(&Body::Topology {
        msg_id: 2,
        topology: topology_n1_n2(),
    }) else {
        panic!("didn't receive topology_ok after sending topology message!");
    };
    let messages = node.handle_message(Message {
        src: "c1".into(),
        dest: "n1".into(),
        body: Body::Broadcast {
            message: 2,
            msg_id: 3,
        },
    });
    assert_eq!(
        messages[0],
        Message {
            src: "n1".into(),
            dest: "n2".into(),
            body: Body::Broadcast {
                message: 2,
                msg_id: 2,
            }
        }
    );
    assert_eq!(
        messages[1],
        Message {
            src: "n1".into(),
            dest: "c1".into(),
            body: Body::BroadcastOk {
                msg_id: 3,
                in_reply_to: 3
            }
        }
    );
    let messages = node.handle_message(Message {
        src: "c1".into(),
        dest: "n1".into(),
        body: Body::Broadcast {
            message: 2,
            msg_id: 4,
        },
    });
    assert_eq!(
        messages[0],
        Message {
            src: "n1".into(),
            dest: "c1".into(),
            body: Body::BroadcastOk {
                msg_id: 4,
                in_reply_to: 4
            }
        }
    );
}

#[test]
fn test_read_ok_merges_broadcast_messages() {
    let mut node = Node::new();
    init(&mut node);
    node.record(1000);
    node.handle_message(Message {
        src: "n2".into(),
        dest: "n1".into(),
        body: Body::ReadOk {
            msg_id: 1,
            in_reply_to: 2,
            messages: vec![2, 1000],
        },
    });
    assert_eq!(node.read(), vec![2, 1000]);
}

#[test]
fn single_node_observe_then_read() {
    let mut node = Node::new();
    init(&mut node);
    let out = node.handle_message(Message {
        src: "c1".into(),
        dest: "n1".into(),
        body: Body::Broadcast { msg_id: 2, message: 1000 },
    });
    assert_eq!(out.len(), 1);
    let out = node.handle_message(Message {
        src: "c1".into(),
        dest: "n1".into(),
        body: Body::Read { msg_id: 3 },
    });
    let Body::ReadOk { messages, in_reply_to, .. } = &out[0].body else {
        panic!("expected read_ok");
    };
    assert_eq!(messages, &vec![1000]);
    assert_eq!(*in_reply_to, 3);
}

#[test]
fn second_observation_sends_only_the_ack() {
    let mut node = Node::new();
    node.handle_message(Message {
        src: "c1".into(),
        dest: "n1".into(),
        body: Body::Init {
            msg_id: 1,
            node_id: "n1".into(),
            node_ids: vec!["n1".into(), "n2".into()],
        },
    });
    node.handle_message(Message {
        src: "c1".into(),
        dest: "n1".into(),
        body: Body::Topology { msg_id: 2, topology: topology_n1_n2() },
    });
    let first = node.handle_message(Message {
        src: "c1".into(),
        dest: "n1".into(),
        body: Body::Broadcast { msg_id: 3, message: 2 },
    });
    let propagated = first
        .iter()
        .filter(|m| matches!(m.body, Body::Broadcast { message: 2, .. }) && m.dest == "n2")
        .count();
    assert_eq!(propagated, 1);
    assert_eq!(first.len(), 2);
    let before = node.read();
    let second = node.handle_message(Message {
        src: "c1".into(),
        dest: "n1".into(),
        body: Body::Broadcast { msg_id: 4, message: 2 },
    });
    assert_eq!(second.len(), 1);
    assert!(matches!(second[0].body, Body::BroadcastOk { in_reply_to: 4, .. }));
    assert_eq!(node.read(), before);
}

#[test]
fn message_ids_strictly_increase() {
    let mut node = Node::new();
    init(&mut node);
    node.handle_body(&Body::Topology {
        msg_id: 2,
        topology: vec![("n1".to_string(), vec!["n2".to_string(), "n3".to_string()])],
    });
    let out = node.handle_message(Message {
        src: "c1".into(),
        dest: "n1".into(),
        body: Body::Broadcast { msg_id: 5, message: 7 },
    });
    let ids: Vec<u64> = out
        .iter()
        .map(|m| match m.body {
            Body::Broadcast { msg_id, .. } => msg_id,
            Body::BroadcastOk { msg_id, .. } => msg_id,
            _ => panic!("unexpected body"),
        })
        .collect();
    assert_eq!(ids, vec![2, 3, 4]);
    assert_eq!(node.cur_id(), 4);
}

#[test]
fn nodes_converge_whatever_the_delivery_order() {
    let mut a = Node::new();
    let mut b = Node::new();
    init(&mut a);
    init(&mut b);
    for v in [5usize, 3, 5, 9] {
        a.handle_message(Message {
            src: "c1".into(),
            dest: "n1".into(),
            body: Body::Broadcast { msg_id: 10, message: v },
        });
    }
    b.handle_message(Message {
        src: "n2".into(),
        dest: "n1".into(),
        body: Body::ReadOk { msg_id: 1, in_reply_to: 1, messages: vec![9, 9, 3] },
    });
    b.handle_message(Message {
        src: "c1".into(),
        dest: "n1".into(),
        body: Body::Broadcast { msg_id: 11, message: 5 },
    });
    assert_eq!(a.read(), b.read());
    assert_eq!(a.read(), vec![3, 5, 9]);
}

#[test]
fn topology_without_own_entry_keeps_peers() {
    let mut node = Node::new();
    init(&mut node);
    node.handle_body(&Body::Topology { msg_id: 2, topology: topology_n1_n2() });
    node.handle_body(&Body::Topology {
        msg_id: 3,
        topology: vec![("n9".to_string(), vec!["n8".to_string()])],
    });
    assert_eq!(node.peers(), &vec!["n2".to_string()]);
}

#[test]
fn generated_ids_are_version_four() {
    let mut node = Node::new();
    init(&mut node);
    let Body::GenerateOk { id, msg_id, .. } = node.handle_body(&Body::Generate { msg_id: 9 }) else {
        panic!("expected generate_ok");
    };
    assert_eq!(msg_id, 1);
    assert_eq!(uuid::Uuid::from_u128(id).get_version_num(), 4);
    let Body::GenerateOk { id: other, .. } = node.handle_body(&Body::Generate { msg_id: 10 }) else {
        panic!("expected generate_ok");
    };
    assert_ne!(id, other);
}
