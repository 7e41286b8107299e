//! A grow-only counter: each node keeps one contribution per node of the
//! cluster, raises only its own, and merges the others by maximum.
use vstd::prelude::*;
use crate::assoc::{
    find_key, keys_unique, lemma_dom, lemma_lookup, lemma_push, lemma_push_unique, lemma_update, to_map,
};

verus! {

/// The bodies a counter node sends and receives.
#[derive(Debug, PartialEq)]
pub enum Body {
    Init { msg_id: u64, node_id: String, node_ids: Vec<String> },
    InitOk { msg_id: u64, in_reply_to: u64 },
    Add { msg_id: u64, delta: u64 },
    AddOk { in_reply_to: u64, msg_id: u64 },
    Read { msg_id: u64 },
    ReadOk { in_reply_to: u64, msg_id: u64, value: u64 },
    /// The contribution `value` of node `node`, sent without reply.
    Gossip { msg_id: u64, value: u64, node: String },
}

/// An envelope addressed from `src` to `dest`.
#[derive(Debug, PartialEq)]
pub struct Message {
    pub src: String,
    pub dest: String,
    pub body: Body,
}

/// The sum of the contributions of a vector held as entries.
pub open spec fn total(s: Seq<(String, u64)>) -> nat
    decreases s.len(),
{
    if s.len() == 0 {
        0
    } else {
        (total(s.drop_last()) + s.last().1) as nat
    }
}

/// The recorded contribution of `k` in `m`; an absent node counts as zero.
pub open spec fn entry(m: Map<Seq<char>, u64>, k: Seq<char>) -> u64 {
    if m.contains_key(k) {
        m[k]
    } else {
        0
    }
}

pub open spec fn max_u64(a: u64, b: u64) -> u64 {
    if a >= b {
        a
    } else {
        b
    }
}

proof fn lemma_total_update(s: Seq<(String, u64)>, i: int, v: u64)
    requires
        0 <= i < s.len(),
    ensures
        total(s.update(i, (s[i].0, v))) == total(s) - s[i].1 + v,
        s[i].1 <= total(s),
    decreases s.len(),
{
    let u = s.update(i, (s[i].0, v));
    if i == s.len() - 1 {
        assert(u.drop_last() =~= s.drop_last());
    } else {
        assert(u.drop_last() =~= s.drop_last().update(i, (s[i].0, v)));
        lemma_total_update(s.drop_last(), i, v);
    }
}

proof fn lemma_total_prefix(s: Seq<(String, u64)>, i: int)
    requires
        0 <= i < s.len(),
    ensures
        total(s.subrange(0, i + 1)) == total(s.subrange(0, i)) + s[i].1,
        total(s.subrange(0, i + 1)) <= total(s),
    decreases s.len(),
{
    assert(s.subrange(0, i + 1).drop_last() =~= s.subrange(0, i));
    if i < s.len() - 1 {
        assert(s.drop_last().subrange(0, i + 1) =~= s.subrange(0, i + 1));
        assert(s.drop_last().subrange(0, i) =~= s.subrange(0, i));
        lemma_total_prefix(s.drop_last(), i);
    } else {
        assert(s.subrange(0, i + 1) =~= s);
    }
}

/// Where the message about entry `i` to entry `j` stands in a gossip round
/// over `n` entries.
pub open spec fn slot(n: int, i: int, j: int) -> int {
    i * n + j
}

proof fn lemma_slot(n: int, a: int, b: int, i: int)
    requires
        0 <= a < i,
        0 <= b < n,
    ensures
        0 <= slot(n, a, b) < slot(n, i, 0),
        slot(n, i, 0) + n == slot(n, i + 1, 0),
{
    assert(a * n + b < i * n) by (nonlinear_arith)
        requires
            0 <= a < i,
            0 <= b < n,
    ;
    assert(0 <= a * n) by (nonlinear_arith)
        requires
            0 <= a,
            0 <= n,
    ;
    assert(i * n + n == (i + 1) * n) by (nonlinear_arith);
}

proof fn lemma_slot_bound(n: int, i: int, j: int)
    requires
        0 <= i < n,
        0 <= j <= n,
    ensures
        0 <= slot(n, i, j) <= n * n,
        slot(n, i, 0) + n == slot(n, i + 1, 0),
{
    assert(0 <= i * n + j <= n * n) by (nonlinear_arith)
        requires
            0 <= i < n,
            0 <= j <= n,
    ;
    assert(i * n + n == (i + 1) * n) by (nonlinear_arith);
}

/// The vector after the contribution `value` of `node` is merged in.
pub open spec fn merged(m: Map<Seq<char>, u64>, node: Seq<char>, value: u64) -> Map<Seq<char>, u64> {
    m.insert(node, max_u64(entry(m, node), value))
}

/// The vector an init seeds: every listed node and the node itself at zero.
pub open spec fn seeded(m: Map<Seq<char>, u64>, own: Seq<char>, ids: Seq<String>) -> bool {
    &&& forall|k: Seq<char>|
        m.contains_key(k) <==> (k == own || exists|i: int| 0 <= i < ids.len() && #[trigger] ids[i]@ == k)
    &&& forall|k: Seq<char>| #[trigger] m.contains_key(k) ==> m[k] == 0
}

/// `post` and `reply` are what handling `body` in state `pre` gives, where
/// `stamp` is the id of a reply.
pub open spec fn stepped(pre: Node, stamp: u64, body: Body, post: Node, reply: Option<Body>) -> bool {
    match body {
        Body::Init { msg_id, node_id, node_ids } => {
            &&& reply == Some(Body::InitOk { msg_id: stamp, in_reply_to: msg_id })
            &&& post.initialized_spec()
            &&& post.id_spec() == node_id
            &&& seeded(post.vector(), node_id@, node_ids@)
            &&& post.value() == 0
        },
        Body::Add { msg_id, delta } => {
            &&& reply == Some(Body::AddOk { in_reply_to: msg_id, msg_id: stamp })
            &&& post.initialized_spec() == pre.initialized_spec()
            &&& post.id_spec() == pre.id_spec()
            &&& post.vector() == pre.vector().insert(
                pre.id_spec()@,
                (pre.vector()[pre.id_spec()@] + delta) as u64,
            )
            &&& post.value() == pre.value() + delta
        },
        Body::Read { msg_id } => {
            &&& reply == Some(Body::ReadOk { in_reply_to: msg_id, msg_id: stamp, value: pre.value() as u64 })
            &&& post.initialized_spec() == pre.initialized_spec()
            &&& post.id_spec() == pre.id_spec()
            &&& post.entries() == pre.entries()
        },
        Body::Gossip { value, node, .. } => {
            &&& reply == None::<Body>
            &&& post.initialized_spec() == pre.initialized_spec()
            &&& post.id_spec() == pre.id_spec()
            &&& post.vector() == merged(pre.vector(), node@, value)
        },
        _ => {
            &&& reply == None::<Body>
            &&& post.initialized_spec() == pre.initialized_spec()
            &&& post.id_spec() == pre.id_spec()
            &&& post.entries() == pre.entries()
        },
    }
}

/// A node of the counter cluster.
pub struct Node {
    initialized: bool,
    id: String,
    cur_id: u64,
    nodes: Vec<(String, u64)>,
}

impl Node {
    /// Node names are distinct, the sum fits in a `u64`, and once initialized
    /// the node's own contribution is recorded.
    pub closed spec fn wf(&self) -> bool {
        &&& keys_unique(self.nodes@)
        &&& total(self.nodes@) <= u64::MAX
        &&& self.initialized ==> to_map(self.nodes@).contains_key(self.id@)
    }

    pub closed spec fn initialized_spec(&self) -> bool {
        self.initialized
    }

    pub closed spec fn id_spec(&self) -> String {
        self.id
    }

    pub closed spec fn cur_id_spec(&self) -> u64 {
        self.cur_id
    }

    /// The contribution vector, entry by entry, in the order gossip sends it.
    pub closed spec fn entries(&self) -> Seq<(String, u64)> {
        self.nodes@
    }

    /// The contribution vector as a map from node name.
    pub open spec fn vector(&self) -> Map<Seq<char>, u64> {
        to_map(self.entries())
    }

    /// The counter's value: the sum of all contributions.
    pub open spec fn value(&self) -> nat {
        total(self.entries())
    }

    /// Whether `body` can be applied without the sum leaving `u64`.
    pub open spec fn fits(&self, body: Body) -> bool {
        match body {
            Body::Add { delta, .. } => self.value() + delta <= u64::MAX,
            Body::Gossip { value, node, .. } => self.value() - entry(self.vector(), node@) + max_u64(
                entry(self.vector(), node@),
                value,
            ) <= u64::MAX,
            _ => true,
        }
    }

    /// A fresh node: not initialized, an empty vector, id counter at one.
    pub fn new() -> (r: Self)
        ensures
            r.wf(),
            !r.initialized_spec(),
            r.id_spec()@ == Seq::<char>::empty(),
            r.cur_id_spec() == 1,
            r.entries() == Seq::<(String, u64)>::empty(),
    {
        Node { initialized: false, id: String::new(), cur_id: 1, nodes: Vec::new() }
    }

    pub fn is_initialized(&self) -> (r: bool)
        ensures
            r == self.initialized_spec(),
    {
        self.initialized
    }

    pub fn id(&self) -> (r: &String)
        ensures
            *r == self.id_spec(),
    {
        &self.id
    }

    pub fn cur_id(&self) -> (r: u64)
        ensures
            r == self.cur_id_spec(),
    {
        self.cur_id
    }

    /// The number of nodes in the vector.
    pub fn node_count(&self) -> (r: usize)
        ensures
            r == self.entries().len(),
    {
        self.nodes.len()
    }

    /// The recorded contribution of `node`, zero where none is.
    pub fn contribution(&self, node: &String) -> (r: u64)
        requires
            self.wf(),
        ensures
            r == entry(self.vector(), node@),
    {
        match find_key(&self.nodes, node) {
            Some(i) => {
                proof {
                    lemma_lookup(self.nodes@, i as int);
                }
                self.nodes[i].1
            },
            None => {
                proof {
                    lemma_dom(self.nodes@, node@);
                }
                0
            },
        }
    }

    /// The sum of all contributions.
    pub fn read_value(&self) -> (r: u64)
        requires
            self.wf(),
        ensures
            r == self.value(),
    {
        let mut acc: u64 = 0;
        let mut i: usize = 0;
        while i < self.nodes.len()
            invariant
                self.wf(),
                i <= self.nodes@.len(),
                acc == total(self.nodes@.subrange(0, i as int)),
            decreases self.nodes@.len() - i,
        {
            proof {
                lemma_total_prefix(self.nodes@, i as int);
            }
            acc = acc + self.nodes[i].1;
            i = i + 1;
        }
        assert(self.nodes@.subrange(0, i as int) =~= self.nodes@);
        acc
    }

    /// Whether applying `body` keeps the sum within `u64`.
    pub fn check_fits(&self, body: &Body) -> (r: bool)
        requires
            self.wf(),
        ensures
            r == self.fits(*body),
    {
        match body {
            Body::Add { msg_id: _, delta } => *delta <= u64::MAX - self.read_value(),
            Body::Gossip { msg_id: _, value, node } => {
                let cur = self.contribution(node);
                *value <= cur || *value - cur <= u64::MAX - self.read_value()
            },
            _ => true,
        }
    }

    /// Records `node` with contribution zero unless it is already there.
    fn seed(&mut self, node: &String)
        requires
            old(self).wf(),
            total(old(self).nodes@) == 0,
        ensures
            final(self).wf(),
            total(final(self).nodes@) == 0,
            final(self).vector() == (if old(self).vector().contains_key(node@) {
                old(self).vector()
            } else {
                old(self).vector().insert(node@, 0)
            }),
            final(self).initialized == old(self).initialized,
            final(self).id == old(self).id,
            final(self).cur_id == old(self).cur_id,
    {
        match find_key(&self.nodes, node) {
            Some(i) => {
                proof {
                    lemma_dom(self.nodes@, node@);
                }
            },
            None => {
                let name = node.clone();
                proof {
                    lemma_dom(self.nodes@, node@);
                    lemma_push_unique(self.nodes@, (name, 0u64));
                    lemma_push(self.nodes@, (name, 0u64));
                }
                let ghost pre = self.nodes@;
                self.nodes.push((name, 0));
                assert(self.nodes@.drop_last() =~= pre);
                proof {
                    if self.initialized {
                        lemma_dom(pre, self.id@);
                        let j = choose|j: int| 0 <= j < pre.len() && #[trigger] pre[j].0@ == self.id@;
                        assert(self.nodes@[j].0@ == self.id@);
                        lemma_dom(self.nodes@, self.id@);
                    }
                }
            },
        }
    }

    /// Raises the node's own contribution by `delta`.
    pub fn increment(&mut self, delta: u64)
        requires
            old(self).wf(),
            old(self).initialized_spec(),
            old(self).value() + delta <= u64::MAX,
        ensures
            final(self).wf(),
            final(self).vector() == old(self).vector().insert(
                old(self).id_spec()@,
                (old(self).vector()[old(self).id_spec()@] + delta) as u64,
            ),
            final(self).value() == old(self).value() + delta,
            final(self).initialized_spec() == old(self).initialized_spec(),
            final(self).id_spec() == old(self).id_spec(),
            final(self).cur_id_spec() == old(self).cur_id_spec(),
    {
        let i = match find_key(&self.nodes, &self.id) {
            Some(i) => i,
            None => {
                proof {
                    lemma_dom(self.nodes@, self.id@);
                }
                return;
            },
        };
        let ghost pre = self.nodes@;
        proof {
            lemma_lookup(pre, i as int);
            lemma_total_update(pre, i as int, (pre[i as int].1 + delta) as u64);
            lemma_update(pre, i as int, (pre[i as int].1 + delta) as u64);
        }
        let v = self.nodes[i].1 + delta;
        let name = self.nodes[i].0.clone();
        self.nodes.set(i, (name, v));
        proof {
            assert(self.nodes@ =~= pre.update(i as int, (pre[i as int].0, v)));
            lemma_dom(pre, self.id@);
            lemma_dom(self.nodes@, self.id@);
            let j = choose|j: int| 0 <= j < pre.len() && #[trigger] pre[j].0@ == self.id@;
            assert(self.nodes@[j].0@ == self.id@);
        }
    }

    /// Merges the contribution `value` of `node`: the record becomes the
    /// larger of the two.
    pub fn merge(&mut self, node: &String, value: u64)
        requires
            old(self).wf(),
            old(self).value() - entry(old(self).vector(), node@) + max_u64(
                entry(old(self).vector(), node@),
                value,
            ) <= u64::MAX,
        ensures
            final(self).wf(),
            final(self).vector() == merged(old(self).vector(), node@, value),
            final(self).value() == old(self).value() - entry(old(self).vector(), node@) + max_u64(
                entry(old(self).vector(), node@),
                value,
            ),
            final(self).initialized_spec() == old(self).initialized_spec(),
            final(self).id_spec() == old(self).id_spec(),
            final(self).cur_id_spec() == old(self).cur_id_spec(),
    {
        let ghost pre = self.nodes@;
        proof {
            lemma_dom(pre, node@);
            if self.initialized {
                lemma_dom(pre, self.id@);
            }
        }
        match find_key(&self.nodes, node) {
            Some(i) => {
                proof {
                    lemma_lookup(pre, i as int);
                }
                if self.nodes[i].1 < value {
                    proof {
                        lemma_total_update(pre, i as int, value);
                        lemma_update(pre, i as int, value);
                    }
                    let name = self.nodes[i].0.clone();
                    self.nodes.set(i, (name, value));
                    proof {
                        assert(self.nodes@ =~= pre.update(i as int, (pre[i as int].0, value)));
                        if self.initialized {
                            let j = choose|j: int| 0 <= j < pre.len() && #[trigger] pre[j].0@ == self.id@;
                            assert(self.nodes@[j].0@ == self.id@);
                            lemma_dom(self.nodes@, self.id@);
                        }
                    }
                } else {
                    assert(merged(to_map(pre), node@, value) =~= to_map(pre));
                }
            },
            None => {
                let name = node.clone();
                proof {
                    lemma_push_unique(pre, (name, value));
                    lemma_push(pre, (name, value));
                }
                self.nodes.push((name, value));
                proof {
                    assert(self.nodes@.drop_last() =~= pre);
                    if self.initialized {
                        let j = choose|j: int| 0 <= j < pre.len() && #[trigger] pre[j].0@ == self.id@;
                        assert(self.nodes@[j].0@ == self.id@);
                        lemma_dom(self.nodes@, self.id@);
                    }
                }
            },
        }
    }

    /// Takes `node_id` as the node's name and seeds the vector with every
    /// node of `node_ids` and the node itself at zero.
    fn initialize(&mut self, node_id: &String, node_ids: &Vec<String>)
        ensures
            final(self).wf(),
            final(self).initialized_spec(),
            final(self).id_spec() == *node_id,
            final(self).cur_id_spec() == old(self).cur_id_spec(),
            seeded(final(self).vector(), node_id@, node_ids@),
            final(self).value() == 0,
    {
        self.initialized = false;
        self.nodes = Vec::new();
        self.id = node_id.clone();
        assert(to_map(self.nodes@) =~= Map::<Seq<char>, u64>::empty());
        let mut i: usize = 0;
        while i < node_ids.len()
            invariant
                self.wf(),
                !self.initialized,
                self.id == *node_id,
                self.cur_id == old(self).cur_id,
                total(self.nodes@) == 0,
                i <= node_ids@.len(),
                forall|k: Seq<char>|
                    self.vector().contains_key(k) <==> (exists|t: int|
                        0 <= t < i && #[trigger] node_ids@[t]@ == k),
                forall|k: Seq<char>| #[trigger] self.vector().contains_key(k) ==> self.vector()[k] == 0,
            decreases node_ids@.len() - i,
        {
            self.seed(&node_ids[i]);
            proof {
                assert forall|k: Seq<char>|
                    self.vector().contains_key(k) <==> (exists|t: int|
                        0 <= t < i + 1 && #[trigger] node_ids@[t]@ == k) by {
                    if k == node_ids@[i as int]@ {
                        assert(node_ids@[i as int]@ == k);
                    }
                    if exists|t: int| 0 <= t < i + 1 && #[trigger] node_ids@[t]@ == k {
                        let t = choose|t: int| 0 <= t < i + 1 && #[trigger] node_ids@[t]@ == k;
                        if t < i {
                            assert(node_ids@[t]@ == k);
                        }
                    }
                }
            }
            i = i + 1;
        }
        self.seed(node_id);
        self.initialized = true;
        proof {
            assert(self.vector().contains_key(node_id@));
        }
    }

    /// Handles one body: requests are answered with a reply stamped by the
    /// current id; gossip is merged without a reply.
    pub fn handle_body(&mut self, body: &Body) -> (r: Option<Body>)
        requires
            old(self).wf(),
            old(self).initialized_spec() || body is Init,
            !(old(self).initialized_spec() && body is Init),
            old(self).fits(*body),
        ensures
            final(self).wf(),
            final(self).cur_id_spec() == old(self).cur_id_spec(),
            stepped(*old(self), old(self).cur_id_spec(), *body, *final(self), r),
    {
        match body {
            Body::Init { msg_id, node_id, node_ids } => {
                self.initialize(node_id, node_ids);
                Some(Body::InitOk { msg_id: self.cur_id, in_reply_to: *msg_id })
            },
            Body::Add { msg_id, delta } => {
                self.increment(*delta);
                Some(Body::AddOk { in_reply_to: *msg_id, msg_id: self.cur_id })
            },
            Body::Read { msg_id } => Some(
                Body::ReadOk { in_reply_to: *msg_id, msg_id: self.cur_id, value: self.read_value() },
            ),
            Body::Gossip { msg_id: _, value, node } => {
                self.merge(node, *value);
                None
            },
            _ => None,
        }
    }

    /// Handles one inbound message and returns the reply, if the body asks
    /// for one.
    pub fn handle_message(&mut self, message: Message) -> (r: Vec<Message>)
        requires
            old(self).wf(),
            old(self).initialized_spec() || message.body is Init,
            !(old(self).initialized_spec() && message.body is Init),
            old(self).fits(message.body),
            old(self).cur_id_spec() < u64::MAX,
        ensures
            final(self).wf(),
            r@.len() <= 1,
            stepped(
                *old(self),
                old(self).cur_id_spec(),
                message.body,
                *final(self),
                if r@.len() == 1 {
                    Some(r@[0].body)
                } else {
                    None
                },
            ),
            r@.len() == 1 ==> r@[0].src == message.dest && r@[0].dest == message.src
                && final(self).cur_id_spec() == old(self).cur_id_spec() + 1,
            r@.len() == 0 ==> final(self).cur_id_spec() == old(self).cur_id_spec(),
    {
        let mut messages: Vec<Message> = Vec::new();
        let reply = self.handle_body(&message.body);
        match reply {
            Some(body) => {
                messages.push(Message { src: message.dest, dest: message.src, body });
                self.cur_id = self.cur_id + 1;
            },
            None => {},
        }
        messages
    }

    /// One round of gossip: every entry of the vector, sent to every node in
    /// the vector, each message stamped with the next id.
    pub fn gossip(&mut self) -> (r: Vec<Message>)
        requires
            old(self).wf(),
            old(self).cur_id_spec() + old(self).entries().len() * old(self).entries().len() <= u64::MAX,
        ensures
            final(self).wf(),
            final(self).entries() == old(self).entries(),
            final(self).initialized_spec() == old(self).initialized_spec(),
            final(self).id_spec() == old(self).id_spec(),
            ({
                let n = old(self).entries().len() as int;
                let e = old(self).entries();
                &&& r@.len() == n * n
                &&& final(self).cur_id_spec() == old(self).cur_id_spec() + n * n
                &&& forall|i: int, j: int|
                    0 <= i < n && 0 <= j < n ==> #[trigger] r@[slot(n, i, j)] == (Message {
                        src: old(self).id_spec(),
                        dest: e[j].0,
                        body: Body::Gossip {
                            msg_id: (old(self).cur_id_spec() + slot(n, i, j)) as u64,
                            value: e[i].1,
                            node: e[i].0,
                        },
                    })
            }),
    {
        let ghost pre = *self;
        let ghost n = self.nodes@.len() as int;
        let mut messages: Vec<Message> = Vec::new();
        let mut i: usize = 0;
        assert(n * n == slot(n, n, 0));
        while i < self.nodes.len()
            invariant
                self.nodes == pre.nodes,
                self.id == pre.id,
                self.initialized == pre.initialized,
                n == self.nodes@.len(),
                pre.cur_id + n * n <= u64::MAX,
                n * n == slot(n, n, 0),
                0 <= i <= n,
                messages@.len() == slot(n, i as int, 0),
                self.cur_id == pre.cur_id + slot(n, i as int, 0),
                forall|a: int, b: int|
                    0 <= a < i && 0 <= b < n ==> #[trigger] messages@[slot(n, a, b)] == (Message {
                        src: pre.id,
                        dest: pre.nodes@[b].0,
                        body: Body::Gossip {
                            msg_id: (pre.cur_id + slot(n, a, b)) as u64,
                            value: pre.nodes@[a].1,
                            node: pre.nodes@[a].0,
                        },
                    }),
            decreases n - i,
        {
            let mut j: usize = 0;
            while j < self.nodes.len()
                invariant
                    self.nodes == pre.nodes,
                    self.id == pre.id,
                    self.initialized == pre.initialized,
                    n == self.nodes@.len(),
                    pre.cur_id + n * n <= u64::MAX,
                    0 <= i < n,
                    0 <= j <= n,
                    messages@.len() == slot(n, i as int, j as int),
                    self.cur_id == pre.cur_id + slot(n, i as int, j as int),
                    forall|a: int, b: int|
                        0 <= a < i && 0 <= b < n ==> #[trigger] messages@[slot(n, a, b)] == (Message {
                            src: pre.id,
                            dest: pre.nodes@[b].0,
                            body: Body::Gossip {
                                msg_id: (pre.cur_id + slot(n, a, b)) as u64,
                                value: pre.nodes@[a].1,
                                node: pre.nodes@[a].0,
                            },
                        }),
                    forall|b: int|
                        0 <= b < j ==> #[trigger] messages@[slot(n, i as int, b)] == (Message {
                            src: pre.id,
                            dest: pre.nodes@[b].0,
                            body: Body::Gossip {
                                msg_id: (pre.cur_id + slot(n, i as int, b)) as u64,
                                value: pre.nodes@[i as int].1,
                                node: pre.nodes@[i as int].0,
                            },
                        }),
                decreases n - j,
            {
                proof {
                    lemma_slot_bound(n, i as int, j as int);
                    lemma_slot_bound(n, i as int, j as int + 1);
                }
                let ghost before = messages@;
                messages.push(
                    Message {
                        src: self.id.clone(),
                        dest: self.nodes[j].0.clone(),
                        body: Body::Gossip {
                            msg_id: self.cur_id,
                            value: self.nodes[i].1,
                            node: self.nodes[i].0.clone(),
                        },
                    },
                );
                self.cur_id = self.cur_id + 1;
                proof {
                    assert forall|a: int, b: int|
                        0 <= a < i && 0 <= b < n implies #[trigger] messages@[slot(n, a, b)] == before[slot(
                            n,
                            a,
                            b,
                        )] by {
                        lemma_slot(n, a, b, i as int);
                    }
                    assert forall|b: int| 0 <= b < j implies #[trigger] messages@[slot(n, i as int, b)]
                        == before[slot(n, i as int, b)] by {}
                }
                j = j + 1;
            }
            proof {
                lemma_slot_bound(n, i as int, n);
                assert forall|a: int, b: int|
                    0 <= a < i + 1 && 0 <= b < n implies #[trigger] messages@[slot(n, a, b)] == (Message {
                        src: pre.id,
                        dest: pre.nodes@[b].0,
                        body: Body::Gossip {
                            msg_id: (pre.cur_id + slot(n, a, b)) as u64,
                            value: pre.nodes@[a].1,
                            node: pre.nodes@[a].0,
                        },
                    }) by {
                    if a == i {
                    }
                }
            }
            i = i + 1;
        }
        messages
    }
}

/// The join of two contribution vectors: every node of either, at the larger
/// of its two contributions.
pub open spec fn join(a: Map<Seq<char>, u64>, b: Map<Seq<char>, u64>) -> Map<Seq<char>, u64> {
    Map::new(
        |k: Seq<char>| a.contains_key(k) || b.contains_key(k),
        |k: Seq<char>| max_u64(entry(a, k), entry(b, k)),
    )
}

/// Merging one gossiped contribution is the join with a one-entry vector.
pub proof fn lemma_merge_is_join(m: Map<Seq<char>, u64>, node: Seq<char>, value: u64)
    ensures
        merged(m, node, value) == join(m, map![node => value]),
{
    assert(merged(m, node, value) =~= join(m, map![node => value]));
}

/// The join is commutative, associative and idempotent, so vectors merged in
/// any order and any number of times give the same result.
pub proof fn lemma_join_laws(a: Map<Seq<char>, u64>, b: Map<Seq<char>, u64>, c: Map<Seq<char>, u64>)
    ensures
        join(join(a, b), c) == join(a, join(b, c)),
        join(join(a, b), c) == join(join(a, c), b),
        join(a, b) == join(b, a),
        join(a, a) == a,
{
    assert(join(join(a, b), c) =~= join(a, join(b, c)));
    assert(join(join(a, b), c) =~= join(join(a, c), b));
    assert(join(a, b) =~= join(b, a));
    assert(join(a, a) =~= a);
}

/// Merging a vector whose every entry is no larger than the local one
/// changes nothing.
pub proof fn lemma_join_dominated(a: Map<Seq<char>, u64>, b: Map<Seq<char>, u64>)
    requires
        forall|k: Seq<char>| #[trigger] b.contains_key(k) ==> a.contains_key(k) && b[k] <= a[k],
    ensures
        join(a, b) == a,
{
    assert(join(a, b) =~= a);
}

/// The sum of a sequence of naturals.
pub open spec fn sum_nat(s: Seq<nat>) -> nat
    decreases s.len(),
{
    if s.len() == 0 {
        0
    } else {
        sum_nat(s.drop_last()) + s.last()
    }
}

/// The pointwise maximum of the vectors `vs` over `n` nodes.
pub open spec fn join_all(vs: Seq<Seq<nat>>, n: nat) -> Seq<nat>
    decreases vs.len(),
{
    if vs.len() == 0 {
        Seq::new(n, |i: int| 0nat)
    } else {
        let prev = join_all(vs.drop_last(), n);
        Seq::new(n, |i: int| if prev[i] >= vs.last()[i] { prev[i] } else { vs.last()[i] })
    }
}

/// What each of the `n` nodes added to its own entry, in total.
pub open spec fn own_totals(deltas: Seq<Seq<nat>>) -> Seq<nat> {
    Seq::new(deltas.len(), |i: int| sum_nat(deltas[i]))
}

proof fn lemma_join_all_bounds(deltas: Seq<Seq<nat>>, vs: Seq<Seq<nat>>, n: nat)
    requires
        deltas.len() == n,
        vs.len() <= n,
        forall|j: int| 0 <= j < vs.len() ==> (#[trigger] vs[j]).len() == n,
        forall|j: int| 0 <= j < vs.len() ==> #[trigger] vs[j][j] == sum_nat(deltas[j]),
        forall|j: int, i: int| 0 <= j < vs.len() && 0 <= i < n ==> #[trigger] vs[j][i] <= sum_nat(deltas[i]),
    ensures
        join_all(vs, n).len() == n,
        forall|i: int| 0 <= i < n ==> #[trigger] join_all(vs, n)[i] <= sum_nat(deltas[i]),
        forall|i: int| 0 <= i < vs.len() ==> #[trigger] join_all(vs, n)[i] == sum_nat(deltas[i]),
    decreases vs.len(),
{
    if vs.len() > 0 {
        let w = vs.drop_last();
        assert forall|j: int, i: int| 0 <= j < w.len() && 0 <= i < n implies #[trigger] w[j][i] <= sum_nat(
            deltas[i],
        ) by {
            assert(vs[j][i] <= sum_nat(deltas[i]));
        }
        assert forall|j: int| 0 <= j < w.len() implies #[trigger] w[j][j] == sum_nat(deltas[j]) by {
            assert(vs[j][j] == sum_nat(deltas[j]));
        }
        lemma_join_all_bounds(deltas, w, n);
        let last = vs.len() - 1;
        assert forall|i: int| 0 <= i < n implies #[trigger] join_all(vs, n)[i] <= sum_nat(deltas[i]) by {
            assert(vs[last][i] <= sum_nat(deltas[i]));
        }
        assert forall|i: int| 0 <= i < vs.len() implies #[trigger] join_all(vs, n)[i] == sum_nat(deltas[i]) by {
            assert(vs[last][i] <= sum_nat(deltas[i]));
            if i < last {
                assert(join_all(w, n)[i] == sum_nat(deltas[i]));
            } else {
                assert(vs[last][last] == sum_nat(deltas[last]));
            }
        }
    }
}

/// Counter correctness: node `j` of `n` applied the increments `deltas[j]`
/// to its own entry and learned lower entries of the others by gossip. Once
/// every vector has been merged into one, the counter reads the sum of all
/// increments made anywhere.
pub proof fn lemma_counter_converges(deltas: Seq<Seq<nat>>, vs: Seq<Seq<nat>>)
    requires
        vs.len() == deltas.len(),
        forall|j: int| 0 <= j < vs.len() ==> (#[trigger] vs[j]).len() == deltas.len(),
        forall|j: int| 0 <= j < vs.len() ==> #[trigger] vs[j][j] == sum_nat(deltas[j]),
        forall|j: int, i: int|
            0 <= j < vs.len() && 0 <= i < deltas.len() ==> #[trigger] vs[j][i] <= sum_nat(deltas[i]),
    ensures
        join_all(vs, deltas.len()) == own_totals(deltas),
        sum_nat(join_all(vs, deltas.len())) == sum_nat(own_totals(deltas)),
{
    lemma_join_all_bounds(deltas, vs, deltas.len());
    assert(join_all(vs, deltas.len()) =~= own_totals(deltas));
}

} // verus!
