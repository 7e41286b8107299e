//! Reliable broadcast: each node records the values it observes and passes a
//! value on to its peers the first time it sees it.
use vstd::prelude::*;
use crate::assoc::find_key;

verus! {

/// The bodies a broadcast node sends and receives.
#[derive(Debug, PartialEq)]
pub enum Body {
    Echo { msg_id: u64, echo: String },
    EchoOk { msg_id: u64, in_reply_to: u64, echo: String },
    Init { msg_id: u64, node_id: String, node_ids: Vec<String> },
    InitOk { msg_id: u64, in_reply_to: u64 },
    Generate { msg_id: u64 },
    /// `id` is a version 4 UUID as a 128-bit integer.
    GenerateOk { id: u128, in_reply_to: u64, msg_id: u64 },
    Broadcast { msg_id: u64, message: usize },
    BroadcastOk { in_reply_to: u64, msg_id: u64 },
    Read { msg_id: u64 },
    ReadOk { msg_id: u64, in_reply_to: u64, messages: Vec<usize> },
    /// Each entry names a node and its neighbours.
    Topology { msg_id: u64, topology: Vec<(String, Vec<String>)> },
    TopologyOk { msg_id: u64, in_reply_to: u64 },
}

/// An envelope addressed from `src` to `dest`.
#[derive(Debug, PartialEq)]
pub struct Message {
    pub src: String,
    pub dest: String,
    pub body: Body,
}

/// A body that asks for a reply.
pub open spec fn is_request(b: Body) -> bool {
    match b {
        Body::Echo { .. } | Body::Init { .. } | Body::Generate { .. } | Body::Broadcast { .. }
        | Body::Read { .. } | Body::Topology { .. } => true,
        _ => false,
    }
}

pub open spec fn increasing(s: Seq<usize>) -> bool {
    forall|i: int, j: int| 0 <= i < j < s.len() ==> s[i] < s[j]
}

/// The version nibble and variant bits of a random (version 4) UUID.
pub open spec fn is_v4_uuid(id: u128) -> bool {
    (id >> 76u128) & 0xfu128 == 4 && (id >> 62u128) & 3u128 == 2
}

/// Relies on uuid::Uuid::new_v4: a random identifier whose version field is 4
/// and whose variant is the one of RFC 4122.
#[verifier::external_body]
fn random_uuid() -> (r: u128)
    ensures
        is_v4_uuid(r),
{
    uuid::Uuid::new_v4().as_u128()
}

/// Adds `v` to the strictly increasing `s`, keeping it so.
fn insert_sorted(s: &mut Vec<usize>, v: usize) -> (added: bool)
    requires
        increasing(old(s)@),
    ensures
        increasing(final(s)@),
        final(s)@.to_set() == old(s)@.to_set().insert(v),
        added == !old(s)@.contains(v),
{
    let mut i: usize = 0;
    while i < s.len() && s[i] < v
        invariant
            i <= s@.len(),
            increasing(s@),
            forall|j: int| 0 <= j < i ==> s@[j] < v,
        decreases s@.len() - i,
    {
        i = i + 1;
    }
    if i < s.len() && s[i] == v {
        assert(s@.to_set().insert(v) =~= s@.to_set());
        return false;
    }
    let ghost before = s@;
    assert(!before.contains(v)) by {
        assert forall|j: int| 0 <= j < before.len() implies before[j] != v by {
            if j >= i {
                assert(before[i as int] <= before[j]);
            }
        }
    }
    s.insert(i, v);
    proof {
        before.insert_ensures(i as int, v);
        assert forall|a: int, b: int| 0 <= a < b < s@.len() implies s@[a] < s@[b] by {
            if b < i {
            } else if b == i {
            } else if a < i {
                assert(before[a] < v && v < before[b - 1]);
            } else if a == i {
                assert(before[i as int] <= before[b - 1]);
            } else {
            }
        }
        assert forall|x: usize| s@.contains(x) <==> before.contains(x) || x == v by {
            if s@.contains(x) {
                let k = choose|k: int| 0 <= k < s@.len() && s@[k] == x;
                if k < i {
                    assert(before[k] == x);
                } else if k > i {
                    assert(before[k - 1] == x);
                }
            }
            if before.contains(x) {
                let k = choose|k: int| 0 <= k < before.len() && before[k] == x;
                if k < i {
                    assert(s@[k] == x);
                } else {
                    assert(s@[k + 1] == x);
                }
            }
            if x == v {
                assert(s@[i as int] == v);
            }
        }
        assert(s@.to_set() =~= before.to_set().insert(v));
    }
    true
}

/// A copy of a list of strings.
fn clone_strings(v: &Vec<String>) -> (r: Vec<String>)
    ensures
        r@ == v@,
{
    let mut r: Vec<String> = Vec::new();
    let mut i: usize = 0;
    while i < v.len()
        invariant
            i <= v@.len(),
            r@ == v@.subrange(0, i as int),
        decreases v@.len() - i,
    {
        r.push(v[i].clone());
        i = i + 1;
    }
    assert(r@ =~= v@);
    r
}

/// The peer list that `topology` assigns to node `id`: the list of the first
/// entry naming `id`, or `current` where no entry names it.
pub open spec fn topology_peers(
    topology: Seq<(String, Vec<String>)>,
    id: Seq<char>,
    current: Seq<String>,
) -> Seq<String> {
    if exists|i: int| 0 <= i < topology.len() && #[trigger] topology[i].0@ == id {
        let i = choose|i: int|
            0 <= i < topology.len() && #[trigger] topology[i].0@ == id && forall|j: int|
                0 <= j < i ==> #[trigger] topology[j].0@ != id;
        topology[i].1@
    } else {
        current
    }
}

/// Everything of `post` but the id counter equals `pre`, with `seen` as its values.
pub open spec fn same_but_seen(pre: Node, post: Node, seen: Set<usize>) -> bool {
    &&& post.initialized_spec() == pre.initialized_spec()
    &&& post.id_spec() == pre.id_spec()
    &&& post.peers_spec() == pre.peers_spec()
    &&& post.seen() == seen
}

/// `post` and `reply` are what answering the request `body` in state `pre`
/// gives, where `stamp` is the reply's own id.
pub open spec fn answered(pre: Node, stamp: u64, body: Body, post: Node, reply: Body) -> bool {
    match body {
        Body::Echo { msg_id, echo } => {
            &&& reply == (Body::EchoOk { msg_id: stamp, in_reply_to: msg_id, echo })
            &&& same_but_seen(pre, post, pre.seen())
        },
        Body::Init { msg_id, node_id, .. } => {
            &&& reply == (Body::InitOk { msg_id: stamp, in_reply_to: msg_id })
            &&& post.initialized_spec()
            &&& post.id_spec() == node_id
            &&& post.peers_spec() == pre.peers_spec()
            &&& post.seen() == pre.seen()
        },
        Body::Generate { msg_id } => {
            &&& reply matches Body::GenerateOk { id, in_reply_to, msg_id: m }
                && in_reply_to == msg_id && m == stamp && is_v4_uuid(id)
            &&& same_but_seen(pre, post, pre.seen())
        },
        Body::Broadcast { msg_id, message } => {
            &&& reply == (Body::BroadcastOk { in_reply_to: msg_id, msg_id: stamp })
            &&& same_but_seen(pre, post, pre.seen().insert(message))
        },
        Body::Read { msg_id } => {
            &&& reply matches Body::ReadOk { msg_id: m, in_reply_to, messages }
                && m == stamp && in_reply_to == msg_id && messages@.to_set() == pre.seen()
                && increasing(messages@)
            &&& same_but_seen(pre, post, pre.seen())
        },
        Body::Topology { msg_id, topology } => {
            &&& reply == (Body::TopologyOk { msg_id: stamp, in_reply_to: msg_id })
            &&& post.initialized_spec() == pre.initialized_spec()
            &&& post.id_spec() == pre.id_spec()
            &&& post.seen() == pre.seen()
            &&& post.peers_spec() == topology_peers(topology@, pre.id_spec()@, pre.peers_spec())
        },
        _ => false,
    }
}

/// The messages that offer a newly seen value `v` to each peer, stamped with
/// consecutive ids from `first`.
pub open spec fn fan_out(pre: Node, v: usize, first: int, out: Seq<Message>) -> bool {
    &&& out.len() == pre.peers_spec().len()
    &&& forall|k: int|
        0 <= k < out.len() ==> #[trigger] out[k] == (Message {
            src: pre.id_spec(),
            dest: pre.peers_spec()[k],
            body: Body::Broadcast { msg_id: (first + k) as u64, message: v },
        })
}

/// `post` and `out` are what delivering `message` to a node in state `pre`
/// gives.
pub open spec fn delivered(pre: Node, message: Message, post: Node, out: Seq<Message>) -> bool {
    match message.body {
        Body::Broadcast { msg_id, message: v } => {
            let n = pre.peers_spec().len();
            let first = pre.cur_id_spec() + 1;
            &&& same_but_seen(pre, post, pre.seen().insert(v))
            &&& if pre.seen().contains(v) {
                &&& post.cur_id_spec() == first
                &&& out == seq![Message { src: message.dest, dest: message.src,
                    body: Body::BroadcastOk { in_reply_to: msg_id, msg_id: first as u64 } }]
            } else {
                &&& post.cur_id_spec() == first + n
                &&& out.len() == n + 1
                &&& fan_out(pre, v, first, out.subrange(0, n as int))
                &&& out[n as int] == (Message { src: message.dest, dest: message.src,
                    body: Body::BroadcastOk { in_reply_to: msg_id, msg_id: (first + n) as u64 } })
            }
        },
        Body::ReadOk { messages, .. } => {
            &&& out.len() == 0
            &&& post.cur_id_spec() == pre.cur_id_spec() + 1
            &&& same_but_seen(pre, post, pre.seen().union(messages@.to_set()))
        },
        b => if is_request(b) {
            &&& out.len() == 1
            &&& out[0].src == message.dest
            &&& out[0].dest == message.src
            &&& post.cur_id_spec() == pre.cur_id_spec() + 1
            &&& answered(pre, (pre.cur_id_spec() + 1) as u64, b, post, out[0].body)
        } else {
            &&& out.len() == 0
            &&& post.cur_id_spec() == pre.cur_id_spec() + 1
            &&& same_but_seen(pre, post, pre.seen())
        },
    }
}

/// A node of the broadcast cluster.
pub struct Node {
    initialized: bool,
    id: String,
    cur_id: u64,
    broadcast_messages: Vec<usize>,
    peers: Vec<String>,
}

impl Node {
    /// The stored values are kept strictly increasing.
    pub closed spec fn wf(&self) -> bool {
        increasing(self.broadcast_messages@)
    }

    /// The set of values this node has observed.
    pub closed spec fn seen(&self) -> Set<usize> {
        self.broadcast_messages@.to_set()
    }

    pub closed spec fn initialized_spec(&self) -> bool {
        self.initialized
    }

    pub closed spec fn id_spec(&self) -> String {
        self.id
    }

    pub closed spec fn cur_id_spec(&self) -> u64 {
        self.cur_id
    }

    pub closed spec fn peers_spec(&self) -> Seq<String> {
        self.peers@
    }

    /// A fresh node: not initialized, no values, no peers, id counter at zero.
    pub fn new() -> (r: Self)
        ensures
            r.wf(),
            !r.initialized_spec(),
            r.id_spec()@ == Seq::<char>::empty(),
            r.cur_id_spec() == 0,
            r.seen() == Set::<usize>::empty(),
            r.peers_spec() == Seq::<String>::empty(),
    {
        let r = Node {
            initialized: false,
            id: String::new(),
            cur_id: 0,
            broadcast_messages: Vec::new(),
            peers: Vec::new(),
        };
        assert(r.seen() =~= Set::<usize>::empty());
        r
    }

    pub fn is_initialized(&self) -> (r: bool)
        ensures
            r == self.initialized_spec(),
    {
        self.initialized
    }

    pub fn id(&self) -> (r: &String)
        ensures
            *r == self.id_spec(),
    {
        &self.id
    }

    pub fn cur_id(&self) -> (r: u64)
        ensures
            r == self.cur_id_spec(),
    {
        self.cur_id
    }

    pub fn peers(&self) -> (r: &Vec<String>)
        ensures
            r@ == self.peers_spec(),
    {
        &self.peers
    }

    /// The observed values, in increasing order.
    pub fn read(&self) -> (r: Vec<usize>)
        requires
            self.wf(),
        ensures
            r@.to_set() == self.seen(),
            increasing(r@),
    {
        let mut r: Vec<usize> = Vec::new();
        let mut i: usize = 0;
        while i < self.broadcast_messages.len()
            invariant
                i <= self.broadcast_messages@.len(),
                r@ == self.broadcast_messages@.subrange(0, i as int),
            decreases self.broadcast_messages@.len() - i,
        {
            r.push(self.broadcast_messages[i]);
            i = i + 1;
        }
        assert(r@ =~= self.broadcast_messages@);
        r
    }

    /// Records `v` among the observed values; true when it was new.
    pub fn record(&mut self, v: usize) -> (added: bool)
        requires
            old(self).wf(),
        ensures
            final(self).wf(),
            final(self).seen() == old(self).seen().insert(v),
            added == !old(self).seen().contains(v),
            final(self).initialized_spec() == old(self).initialized_spec(),
            final(self).id_spec() == old(self).id_spec(),
            final(self).cur_id_spec() == old(self).cur_id_spec(),
            final(self).peers_spec() == old(self).peers_spec(),
    {
        insert_sorted(&mut self.broadcast_messages, v)
    }

    /// Adds every value of `values` to the observed set.
    pub fn merge_values(&mut self, values: &Vec<usize>)
        requires
            old(self).wf(),
        ensures
            final(self).wf(),
            final(self).seen() == old(self).seen().union(values@.to_set()),
            final(self).initialized_spec() == old(self).initialized_spec(),
            final(self).id_spec() == old(self).id_spec(),
            final(self).cur_id_spec() == old(self).cur_id_spec(),
            final(self).peers_spec() == old(self).peers_spec(),
    {
        let mut i: usize = 0;
        while i < values.len()
            invariant
                i <= values@.len(),
                self.wf(),
                self.seen() == old(self).seen().union(values@.subrange(0, i as int).to_set()),
                self.initialized_spec() == old(self).initialized_spec(),
                self.id_spec() == old(self).id_spec(),
                self.cur_id_spec() == old(self).cur_id_spec(),
                self.peers_spec() == old(self).peers_spec(),
            decreases values@.len() - i,
        {
            let ghost prev = self.seen();
            self.record(values[i]);
            assert(values@.subrange(0, i + 1).to_set() =~= values@.subrange(0, i as int).to_set().insert(
                values@[i as int],
            )) by {
                assert(values@.subrange(0, i + 1) =~= values@.subrange(0, i as int).push(values@[i as int]));
                values@.subrange(0, i as int).lemma_push_to_set_commute(values@[i as int]);
            }
            assert(self.seen() =~= old(self).seen().union(values@.subrange(0, i + 1).to_set()));
            i = i + 1;
        }
        assert(values@.subrange(0, values@.len() as int) =~= values@);
    }

    /// Whether `v` has been observed.
    pub fn has_seen(&self, v: usize) -> (r: bool)
        requires
            self.wf(),
        ensures
            r == self.seen().contains(v),
    {
        let mut i: usize = 0;
        while i < self.broadcast_messages.len()
            invariant
                i <= self.broadcast_messages@.len(),
                forall|j: int| 0 <= j < i ==> self.broadcast_messages@[j] != v,
            decreases self.broadcast_messages@.len() - i,
        {
            if self.broadcast_messages[i] == v {
                assert(self.broadcast_messages@.contains(v));
                return true;
            }
            i = i + 1;
        }
        false
    }

    /// Answers one request, stamping the reply with the current id.
    pub fn handle_body(&mut self, body: &Body) -> (r: Body)
        requires
            old(self).wf(),
            is_request(*body),
            old(self).initialized_spec() || body is Init,
            !(old(self).initialized_spec() && body is Init),
        ensures
            final(self).wf(),
            final(self).cur_id_spec() == old(self).cur_id_spec(),
            answered(*old(self), old(self).cur_id_spec(), *body, *final(self), r),
    {
        match body {
            Body::Echo { msg_id, echo } => Body::EchoOk {
                msg_id: self.cur_id,
                in_reply_to: *msg_id,
                echo: echo.clone(),
            },
            Body::Init { msg_id, node_id, node_ids: _ } => {
                self.id = node_id.clone();
                self.initialized = true;
                Body::InitOk { msg_id: self.cur_id, in_reply_to: *msg_id }
            },
            Body::Generate { msg_id } => Body::GenerateOk {
                id: random_uuid(),
                msg_id: self.cur_id,
                in_reply_to: *msg_id,
            },
            Body::Broadcast { msg_id, message } => {
                self.record(*message);
                Body::BroadcastOk { in_reply_to: *msg_id, msg_id: self.cur_id }
            },
            Body::Read { msg_id } => Body::ReadOk {
                in_reply_to: *msg_id,
                msg_id: self.cur_id,
                messages: self.read(),
            },
            Body::Topology { msg_id, topology } => {
                let ghost pre = *self;
                match find_key(topology, &self.id) {
                    Some(i) => {
                        self.peers = clone_strings(&topology[i].1);
                        proof {
                            let t = topology@;
                            let id = pre.id@;
                            assert(t[i as int].0@ == id);
                            let c = choose|c: int|
                                0 <= c < t.len() && #[trigger] t[c].0@ == id && forall|j: int|
                                    0 <= j < c ==> #[trigger] t[j].0@ != id;
                            if c < i {
                                assert(t[c].0@ != id);
                            }
                            if c > i {
                                assert(t[i as int].0@ != id);
                            }
                        }
                    },
                    None => {},
                }
                Body::TopologyOk { msg_id: self.cur_id, in_reply_to: *msg_id }
            },
            _ => {
                assert(false);
                Body::TopologyOk { msg_id: self.cur_id, in_reply_to: 0 }
            },
        }
    }

    /// Handles one inbound message and returns the messages it causes. A value
    /// seen for the first time is passed on to every peer before the
    /// acknowledgment; replies from peers get no answer.
    pub fn handle_message(&mut self, message: Message) -> (r: Vec<Message>)
        requires
            old(self).wf(),
            old(self).initialized_spec() || message.body is Init,
            !(old(self).initialized_spec() && message.body is Init),
            old(self).cur_id_spec() + 1 + old(self).peers_spec().len() <= u64::MAX,
        ensures
            final(self).wf(),
            delivered(*old(self), message, *final(self), r@),
    {
        self.cur_id = self.cur_id + 1;
        let ghost pre = *self;
        let mut messages: Vec<Message> = Vec::new();
        match &message.body {
            Body::ReadOk { msg_id: _, in_reply_to: _, messages: values } => {
                self.merge_values(values);
                return messages;
            },
            Body::Broadcast { msg_id: _, message: v } => {
                if !self.has_seen(*v) {
                    let mut k: usize = 0;
                    while k < self.peers.len()
                        invariant
                            self.wf(),
                            k <= self.peers@.len(),
                            self.peers == pre.peers,
                            self.id == pre.id,
                            self.initialized == pre.initialized,
                            self.broadcast_messages == pre.broadcast_messages,
                            self.cur_id == pre.cur_id + k,
                            pre.cur_id + pre.peers@.len() <= u64::MAX,
                            messages@.len() == k,
                            forall|j: int|
                                0 <= j < k ==> #[trigger] messages@[j] == (Message {
                                    src: pre.id,
                                    dest: pre.peers@[j],
                                    body: Body::Broadcast { msg_id: (pre.cur_id + j) as u64, message: *v },
                                }),
                        decreases self.peers@.len() - k,
                    {
                        messages.push(
                            Message {
                                src: self.id.clone(),
                                dest: self.peers[k].clone(),
                                body: Body::Broadcast { msg_id: self.cur_id, message: *v },
                            },
                        );
                        self.cur_id = self.cur_id + 1;
                        k = k + 1;
                    }
                }
            },
            Body::Echo { .. } | Body::Init { .. } | Body::Generate { .. } | Body::Read { .. }
            | Body::Topology { .. } => {},
            _ => {
                return messages;
            },
        }
        let reply = self.handle_body(&message.body);
        messages.push(Message { src: message.dest, dest: message.src, body: reply });
        messages
    }
}

/// The values a message hands to a node: a broadcast value, or the values of
/// a peer's read reply.
pub open spec fn carried(m: Message) -> Set<usize> {
    match m.body {
        Body::Broadcast { message, .. } => set![message],
        Body::ReadOk { messages, .. } => messages@.to_set(),
        _ => Set::empty(),
    }
}

/// Every value carried by some message of `msgs`.
pub open spec fn carried_all(msgs: Seq<Message>) -> Set<usize>
    decreases msgs.len(),
{
    if msgs.len() == 0 {
        Set::empty()
    } else {
        carried_all(msgs.drop_last()).union(carried(msgs.last()))
    }
}

/// A node went through `states` as the messages `msgs` were delivered in
/// turn, answering each with the messages in `outs`.
pub open spec fn run(states: Seq<Node>, msgs: Seq<Message>, outs: Seq<Seq<Message>>) -> bool {
    &&& states.len() == msgs.len() + 1
    &&& outs.len() == msgs.len()
    &&& forall|i: int| 0 <= i < msgs.len() ==> delivered(states[i], #[trigger] msgs[i], states[i + 1], outs[i])
}

/// Observing a value a second time leaves the observed set as the first
/// observation left it, and sends nothing but the acknowledgment: no value
/// is passed on twice.
pub proof fn lemma_observe_idempotent(
    n0: Node,
    m1: Message,
    n1: Node,
    out1: Seq<Message>,
    m2: Message,
    n2: Node,
    out2: Seq<Message>,
)
    requires
        m1.body is Broadcast,
        m2.body is Broadcast,
        m1.body->Broadcast_message == m2.body->Broadcast_message,
        delivered(n0, m1, n1, out1),
        delivered(n1, m2, n2, out2),
    ensures
        n2.seen() == n1.seen(),
        n1.seen().contains(m1.body->Broadcast_message),
        out2.len() == 1,
        out2[0].body is BroadcastOk,
{
    let v = m1.body->Broadcast_message;
    assert(n1.seen() == n0.seen().insert(v));
    assert(n1.seen().contains(v));
    assert(n2.seen() =~= n1.seen());
}

/// Every message delivered to a node adds exactly the values it carries.
pub proof fn lemma_delivery_adds(pre: Node, m: Message, post: Node, out: Seq<Message>)
    requires
        delivered(pre, m, post, out),
    ensures
        post.seen() == pre.seen().union(carried(m)),
{
    match m.body {
        Body::Broadcast { message, .. } => {
            assert(pre.seen().insert(message) =~= pre.seen().union(set![message]));
        },
        Body::ReadOk { .. } => {},
        _ => {
            assert(pre.seen() =~= pre.seen().union(Set::<usize>::empty()));
        },
    }
}

/// Whatever the order and repetition of the deliveries, a node ends up with
/// its starting values and every value that was delivered to it.
pub proof fn lemma_run_collects(states: Seq<Node>, msgs: Seq<Message>, outs: Seq<Seq<Message>>)
    requires
        run(states, msgs, outs),
    ensures
        states.last().seen() == states[0].seen().union(carried_all(msgs)),
    decreases msgs.len(),
{
    if msgs.len() == 0 {
        assert(states[0].seen().union(Set::<usize>::empty()) =~= states[0].seen());
    } else {
        let n = msgs.len() - 1;
        let s2 = states.drop_last();
        let m2 = msgs.drop_last();
        let o2 = outs.drop_last();
        assert forall|i: int| 0 <= i < m2.len() implies delivered(s2[i], #[trigger] m2[i], s2[i + 1], o2[i]) by {
            assert(msgs[i] == m2[i]);
        }
        lemma_run_collects(s2, m2, o2);
        assert(delivered(states[n], msgs[n], states[n + 1], outs[n]));
        lemma_delivery_adds(states[n], msgs[n], states[n + 1], outs[n]);
        assert(states.last().seen() =~= states[0].seen().union(carried_all(msgs)));
    }
}

/// Convergence: two nodes that start with the same values and are handed
/// the same values, in any order and with any repetition, hold the same
/// values at the end.
pub proof fn lemma_broadcast_converges(
    sa: Seq<Node>,
    ma: Seq<Message>,
    oa: Seq<Seq<Message>>,
    sb: Seq<Node>,
    mb: Seq<Message>,
    ob: Seq<Seq<Message>>,
)
    requires
        run(sa, ma, oa),
        run(sb, mb, ob),
        sa[0].seen() == sb[0].seen(),
        carried_all(ma) == carried_all(mb),
    ensures
        sa.last().seen() == sb.last().seen(),
{
    lemma_run_collects(sa, ma, oa);
    lemma_run_collects(sb, mb, ob);
}

} // verus!
