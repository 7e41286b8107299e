use gossip_nodes::echo::{handle_body, handle_message, Body, Message};

#[test]
fn echo_reflects_text() {
    let out = handle_message(Message {
        src: "c1".into(),
        dest: "n1".into(),
        body: Body::Echo { msg_id: 4, echo: "hi".into() },
    });
    assert_eq!(out.src, "n1");
    assert_eq!(out.dest, "c1");
    assert_eq!(out.body, Body::EchoOk { msg_id: 4, in_reply_to: 4, echo: "hi".into() });
}

#[test]
fn echo_acknowledges_init() {
    let body = handle_body(Body::Init { msg_id: 7, node_id: "n1".into(), node_ids: vec![] });
    assert_eq!(body, Body::InitOk { msg_id: 7, in_reply_to: 7 });
}

#[test]
fn echo_passes_replies_through() {
    let body = handle_body(Body::InitOk { msg_id: 1, in_reply_to: 2 });
    assert_eq!(body, Body::InitOk { msg_id: 1, in_reply_to: 2 });
}
