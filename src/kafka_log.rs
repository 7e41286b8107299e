//! A replicated log: per key, an append-only sequence of values addressed by
//! offset, and a committed-offset watermark that consumers raise.
use vstd::prelude::*;
use crate::assoc::{find_key, keys_unique, lemma_dom, lemma_lookup, lemma_push, lemma_push_unique, lemma_update, to_map};

verus! {

/// Why a log request was refused.
#[derive(Debug, Clone, Copy, PartialEq, Eq)]
pub enum LogError {
    /// Nothing was ever appended under the key.
    UnknownKey,
    /// The key's log is shorter than the requested offset.
    OffsetNotFound,
}

/// The bodies a log node sends and receives.
#[derive(Debug, PartialEq)]
pub enum Body {
    Init { msg_id: u64, node_id: String, node_ids: Vec<String> },
    InitOk { msg_id: u64, in_reply_to: u64 },
    Send { msg_id: u64, key: String, msg: u64 },
    SendOk { msg_id: u64, in_reply_to: u64, offset: u64 },
    /// One requested offset per entry.
    Poll { msg_id: u64, offsets: Vec<(String, u64)> },
    /// For each requested entry, the key and its (offset, value) pairs.
    PollOk { msg_id: u64, in_reply_to: u64, msgs: Vec<(String, Vec<(u64, u64)>)> },
    CommitOffsets { msg_id: u64, offsets: Vec<(String, u64)> },
    CommitOffsetsOk { msg_id: u64, in_reply_to: u64 },
    ListCommittedOffsets { msg_id: u64, keys: Vec<String> },
    ListCommittedOffsetsOk { msg_id: u64, in_reply_to: u64, offsets: Vec<(String, u64)> },
    /// A request that named an unknown key or offset.
    Error { msg_id: u64, in_reply_to: u64, error: LogError },
}

/// An envelope addressed from `src` to `dest`.
#[derive(Debug, PartialEq)]
pub struct Message {
    pub src: String,
    pub dest: String,
    pub body: Body,
}

/// The partition of one key: its committed offset and its values.
pub type Partition = (u64, Vec<u64>);

/// The committed offset of key `k` after the commits `reqs`, starting from `c`:
/// each commit of offset `o` raises it to at least `o + 1`.
pub open spec fn raised(c: nat, reqs: Seq<(String, u64)>, k: Seq<char>) -> nat
    decreases reqs.len(),
{
    if reqs.len() == 0 {
        c
    } else {
        let prev = raised(c, reqs.drop_last(), k);
        let (key, off) = reqs.last();
        if key@ == k && prev < off + 1 {
            (off + 1) as nat
        } else {
            prev
        }
    }
}

/// Every key has the same log and committed offset in `post` as in `pre`.
pub open spec fn same_logs(pre: Node, post: Node) -> bool {
    forall|k: Seq<char>|
        #![trigger post.has_key(k)]
        #![trigger post.log_of(k)]
        #![trigger post.committed_of(k)]
        post.has_key(k) == pre.has_key(k) && post.log_of(k) == pre.log_of(k) && post.committed_of(k)
            == pre.committed_of(k)
}

/// Name, peers and readiness are those of `pre`.
pub open spec fn same_identity(pre: Node, post: Node) -> bool {
    &&& post.initialized_spec() == pre.initialized_spec()
    &&& post.id_spec() == pre.id_spec()
    &&& post.peers_spec() == pre.peers_spec()
}

/// `post` is `pre` with `value` appended under `key`.
pub open spec fn appended(pre: Node, post: Node, key: Seq<char>, value: u64) -> bool {
    &&& post.has_key(key)
    &&& post.log_of(key) == pre.log_of(key).push(value)
    &&& post.committed_of(key) == pre.committed_of(key)
    &&& forall|k: Seq<char>|
        #![trigger post.has_key(k)]
        #![trigger post.log_of(k)]
        #![trigger post.committed_of(k)]
        k != key ==> post.has_key(k) == pre.has_key(k) && post.log_of(k) == pre.log_of(k)
            && post.committed_of(k) == pre.committed_of(k)
}

/// `post` is `pre` after the commits `reqs`, or unchanged where one of them fails.
pub open spec fn committed(pre: Node, post: Node, reqs: Seq<(String, u64)>) -> bool {
    if pre.first_error(reqs) is Some {
        same_logs(pre, post)
    } else {
        forall|k: Seq<char>|
            #![trigger post.has_key(k)]
            #![trigger post.log_of(k)]
            #![trigger post.committed_of(k)]
            post.has_key(k) == pre.has_key(k) && post.log_of(k) == pre.log_of(k) && post.committed_of(k)
                == raised(pre.committed_of(k) as nat, reqs, k)
    }
}

/// `msgs` holds, for each request, its key and the value at its offset.
pub open spec fn polled(pre: Node, reqs: Seq<(String, u64)>, msgs: Seq<(String, Vec<(u64, u64)>)>) -> bool {
    &&& msgs.len() == reqs.len()
    &&& forall|i: int|
        0 <= i < reqs.len() ==> (#[trigger] msgs[i]).0 == reqs[i].0 && msgs[i].1@ == seq![
            (reqs[i].1, pre.log_of(reqs[i].0@)[reqs[i].1 as int]),
        ]
}

/// `offsets` holds each key of `keys` with its committed offset.
pub open spec fn listed(pre: Node, keys: Seq<String>, offsets: Seq<(String, u64)>) -> bool {
    &&& offsets.len() == keys.len()
    &&& forall|i: int| 0 <= i < keys.len() ==> #[trigger] offsets[i] == (keys[i], pre.committed_of(keys[i]@))
}

/// `post` and `reply` are what handling `body` in state `pre` gives, where
/// `stamp` is the id of a reply.
pub open spec fn stepped(pre: Node, stamp: u64, body: Body, post: Node, reply: Option<Body>) -> bool {
    match body {
        Body::Init { msg_id, node_id, node_ids } => {
            &&& reply == Some(Body::InitOk { msg_id: stamp, in_reply_to: msg_id })
            &&& post.initialized_spec()
            &&& post.id_spec() == node_id
            &&& post.peers_spec() == node_ids@
            &&& same_logs(pre, post)
        },
        Body::Send { msg_id, key, msg } => {
            &&& reply == Some(
                Body::SendOk { msg_id: stamp, in_reply_to: msg_id, offset: pre.log_of(key@).len() as u64 },
            )
            &&& same_identity(pre, post)
            &&& appended(pre, post, key@, msg)
        },
        Body::Poll { msg_id, offsets } => {
            &&& match pre.first_error(offsets@) {
                Some(e) => reply == Some(Body::Error { msg_id: stamp, in_reply_to: msg_id, error: e }),
                None => reply matches Some(Body::PollOk { msg_id: m, in_reply_to, msgs }) && m == stamp
                    && in_reply_to == msg_id && polled(pre, offsets@, msgs@),
            }
            &&& same_identity(pre, post)
            &&& same_logs(pre, post)
        },
        Body::CommitOffsets { msg_id, offsets } => {
            &&& reply == Some(
                match pre.first_error(offsets@) {
                    Some(e) => Body::Error { msg_id: stamp, in_reply_to: msg_id, error: e },
                    None => Body::CommitOffsetsOk { msg_id: stamp, in_reply_to: msg_id },
                },
            )
            &&& same_identity(pre, post)
            &&& committed(pre, post, offsets@)
        },
        Body::ListCommittedOffsets { msg_id, keys } => {
            &&& reply matches Some(Body::ListCommittedOffsetsOk { msg_id: m, in_reply_to, offsets })
                && m == stamp && in_reply_to == msg_id && listed(pre, keys@, offsets@)
            &&& same_identity(pre, post)
            &&& same_logs(pre, post)
        },
        _ => {
            &&& reply == None::<Body>
            &&& same_identity(pre, post)
            &&& same_logs(pre, post)
        },
    }
}

/// A node of the log cluster.
pub struct Node {
    initialized: bool,
    id: String,
    cur_id: u64,
    peers: Vec<String>,
    logs: Vec<(String, Partition)>,
}

impl Node {
    /// Keys are distinct and no committed offset passes the end of its log.
    pub closed spec fn wf(&self) -> bool {
        &&& keys_unique(self.logs@)
        &&& forall|i: int| 0 <= i < self.logs@.len() ==> #[trigger] self.logs@[i].1.0 <= self.logs@[i].1.1@.len()
    }

    pub closed spec fn initialized_spec(&self) -> bool {
        self.initialized
    }

    pub closed spec fn id_spec(&self) -> String {
        self.id
    }

    pub closed spec fn cur_id_spec(&self) -> u64 {
        self.cur_id
    }

    pub closed spec fn peers_spec(&self) -> Seq<String> {
        self.peers@
    }

    /// The partitions, by key.
    pub closed spec fn partitions(&self) -> Map<Seq<char>, Partition> {
        to_map(self.logs@)
    }

    /// Whether anything was appended under `k`.
    pub open spec fn has_key(&self, k: Seq<char>) -> bool {
        self.partitions().contains_key(k)
    }

    /// The values appended under `k`, in order; empty for an unknown key.
    pub open spec fn log_of(&self, k: Seq<char>) -> Seq<u64> {
        if self.has_key(k) {
            self.partitions()[k].1@
        } else {
            Seq::empty()
        }
    }

    /// The committed offset of `k`; zero for an unknown key.
    pub open spec fn committed_of(&self, k: Seq<char>) -> u64 {
        if self.has_key(k) {
            self.partitions()[k].0
        } else {
            0
        }
    }

    /// Why the request for offset `off` of key `k` fails, if it does.
    pub open spec fn request_error(&self, k: Seq<char>, off: u64) -> Option<LogError> {
        if !self.has_key(k) {
            Some(LogError::UnknownKey)
        } else if off >= self.log_of(k).len() {
            Some(LogError::OffsetNotFound)
        } else {
            None
        }
    }

    /// The error of the first failing request of `reqs`, if one fails.
    pub open spec fn first_error(&self, reqs: Seq<(String, u64)>) -> Option<LogError>
        decreases reqs.len(),
    {
        if reqs.len() == 0 {
            None
        } else {
            match self.first_error(reqs.drop_last()) {
                Some(e) => Some(e),
                None => self.request_error(reqs.last().0@, reqs.last().1),
            }
        }
    }

    /// A fresh node: not initialized, no logs, id counter at one.
    pub fn new() -> (r: Self)
        ensures
            r.wf(),
            !r.initialized_spec(),
            r.id_spec()@ == Seq::<char>::empty(),
            r.cur_id_spec() == 1,
            r.peers_spec() == Seq::<String>::empty(),
            forall|k: Seq<char>| !r.has_key(k),
    {
        Node { initialized: false, id: String::new(), cur_id: 1, peers: Vec::new(), logs: Vec::new() }
    }

    pub fn is_initialized(&self) -> (r: bool)
        ensures
            r == self.initialized_spec(),
    {
        self.initialized
    }

    pub fn id(&self) -> (r: &String)
        ensures
            *r == self.id_spec(),
    {
        &self.id
    }

    pub fn cur_id(&self) -> (r: u64)
        ensures
            r == self.cur_id_spec(),
    {
        self.cur_id
    }

    pub fn peers(&self) -> (r: &Vec<String>)
        ensures
            r@ == self.peers_spec(),
    {
        &self.peers
    }

    /// Appends `value` to the log of `key`, creating it if needed, and
    /// returns the new value's offset: the log's length before the append.
    pub fn append(&mut self, key: &String, value: u64) -> (offset: u64)
        requires
            old(self).wf(),
        ensures
            final(self).wf(),
            offset == old(self).log_of(key@).len(),
            appended(*old(self), *final(self), key@, value),
            final(self).initialized_spec() == old(self).initialized_spec(),
            final(self).id_spec() == old(self).id_spec(),
            final(self).cur_id_spec() == old(self).cur_id_spec(),
            final(self).peers_spec() == old(self).peers_spec(),
    {
        let ghost pre = self.logs@;
        proof {
            lemma_dom(pre, key@);
        }
        match find_key(&self.logs, key) {
            Some(i) => {
                proof {
                    lemma_lookup(pre, i as int);
                }
                let offset = self.logs[i].1.1.len() as u64;
                self.logs[i].1.1.push(value);
                proof {
                    let e = self.logs@[i as int];
                    assert(self.logs@ =~= pre.update(i as int, (pre[i as int].0, e.1)));
                    lemma_update(pre, i as int, e.1);
                    assert(forall|j: int| 0 <= j < pre.len() && j != i ==> self.logs@[j] == pre[j]);
                }
                offset
            },
            None => {
                let name = key.clone();
                let part: Partition = (0, vec![value]);
                proof {
                    lemma_push_unique(pre, (name, part));
                    lemma_push(pre, (name, part));
                }
                self.logs.push((name, part));
                assert(self.logs@.drop_last() =~= pre);
                assert(part.1@ =~= seq![value]);
                0
            },
        }
    }

    /// The value at offset `off` of `key`, or why there is none.
    pub fn value_at(&self, key: &String, off: u64) -> (r: Result<u64, LogError>)
        requires
            self.wf(),
        ensures
            match self.request_error(key@, off) {
                Some(e) => r == Err::<u64, LogError>(e),
                None => r == Ok::<u64, LogError>(self.log_of(key@)[off as int]),
            },
    {
        proof {
            lemma_dom(self.logs@, key@);
        }
        match find_key(&self.logs, key) {
            Some(i) => {
                proof {
                    lemma_lookup(self.logs@, i as int);
                }
                if off < self.logs[i].1.1.len() as u64 {
                    Ok(self.logs[i].1.1[off as usize])
                } else {
                    Err(LogError::OffsetNotFound)
                }
            },
            None => Err(LogError::UnknownKey),
        }
    }

    /// The value at each requested offset, or the error of the first request
    /// that fails.
    pub fn poll(&self, offsets: &Vec<(String, u64)>) -> (r: Result<Vec<(String, Vec<(u64, u64)>)>, LogError>)
        requires
            self.wf(),
        ensures
            match self.first_error(offsets@) {
                Some(e) => r == Err::<Vec<(String, Vec<(u64, u64)>)>, LogError>(e),
                None => r matches Ok(found) && found@.len() == offsets@.len() && forall|i: int|
                    0 <= i < offsets@.len() ==> (#[trigger] found@[i]).0 == offsets@[i].0 && found@[i].1@
                        == seq![(offsets@[i].1, self.log_of(offsets@[i].0@)[offsets@[i].1 as int])],
            },
    {
        let mut found: Vec<(String, Vec<(u64, u64)>)> = Vec::new();
        let mut i: usize = 0;
        while i < offsets.len()
            invariant
                self.wf(),
                i <= offsets@.len(),
                self.first_error(offsets@.subrange(0, i as int)) is None,
                found@.len() == i,
                forall|j: int|
                    0 <= j < i ==> (#[trigger] found@[j]).0 == offsets@[j].0 && found@[j].1@ == seq![
                        (offsets@[j].1, self.log_of(offsets@[j].0@)[offsets@[j].1 as int]),
                    ],
            decreases offsets@.len() - i,
        {
            assert(offsets@.subrange(0, i + 1).drop_last() =~= offsets@.subrange(0, i as int));
            match self.value_at(&offsets[i].0, offsets[i].1) {
                Ok(v) => {
                    found.push((offsets[i].0.clone(), vec![(offsets[i].1, v)]));
                    assert(found@[i as int].1@ =~= seq![(offsets@[i as int].1, v)]);
                },
                Err(e) => {
                    proof {
                        self.lemma_first_error_prefix(offsets@, i as int + 1);
                    }
                    return Err(e);
                },
            }
            i = i + 1;
        }
        assert(offsets@.subrange(0, i as int) =~= offsets@);
        Ok(found)
    }

    /// A failing prefix makes the whole sequence fail with the same error.
    proof fn lemma_first_error_prefix(&self, reqs: Seq<(String, u64)>, n: int)
        requires
            0 <= n <= reqs.len(),
            self.first_error(reqs.subrange(0, n)) is Some,
        ensures
            self.first_error(reqs) == self.first_error(reqs.subrange(0, n)),
        decreases reqs.len() - n,
    {
        if n < reqs.len() {
            assert(reqs.subrange(0, n + 1).drop_last() =~= reqs.subrange(0, n));
            self.lemma_first_error_prefix(reqs, n + 1);
        } else {
            assert(reqs.subrange(0, n) =~= reqs);
        }
    }

    /// The committed offset of each key of `keys`; zero for a key without one.
    pub fn list_committed(&self, keys: &Vec<String>) -> (r: Vec<(String, u64)>)
        requires
            self.wf(),
        ensures
            r@.len() == keys@.len(),
            forall|i: int|
                0 <= i < keys@.len() ==> #[trigger] r@[i] == (keys@[i], self.committed_of(keys@[i]@)),
    {
        let mut r: Vec<(String, u64)> = Vec::new();
        let mut i: usize = 0;
        while i < keys.len()
            invariant
                self.wf(),
                i <= keys@.len(),
                r@.len() == i,
                forall|j: int| 0 <= j < i ==> #[trigger] r@[j] == (keys@[j], self.committed_of(keys@[j]@)),
            decreases keys@.len() - i,
        {
            proof {
                lemma_dom(self.logs@, keys@[i as int]@);
            }
            let c = match find_key(&self.logs, &keys[i]) {
                Some(t) => {
                    proof {
                        lemma_lookup(self.logs@, t as int);
                    }
                    self.logs[t].1.0
                },
                None => 0,
            };
            r.push((keys[i].clone(), c));
            i = i + 1;
        }
        r
    }

    /// Moving the id counter changes nothing that a step speaks of.
    proof fn lemma_restamp(pre: Node, stamp: u64, body: Body, mid: Node, post: Node, reply: Option<Body>)
        requires
            stepped(pre, stamp, body, mid, reply),
            post.initialized == mid.initialized,
            post.id == mid.id,
            post.peers == mid.peers,
            post.logs == mid.logs,
        ensures
            stepped(pre, stamp, body, post, reply),
    {
        assert forall|k: Seq<char>|
            post.has_key(k) == mid.has_key(k) && post.log_of(k) == mid.log_of(k) && post.committed_of(k)
                == mid.committed_of(k) by {}
    }

    /// The error of the first failing request of `reqs`, if one fails.
    pub fn first_failure(&self, reqs: &Vec<(String, u64)>) -> (r: Option<LogError>)
        requires
            self.wf(),
        ensures
            r == self.first_error(reqs@),
    {
        let mut i: usize = 0;
        while i < reqs.len()
            invariant
                self.wf(),
                i <= reqs@.len(),
                self.first_error(reqs@.subrange(0, i as int)) is None,
            decreases reqs@.len() - i,
        {
            assert(reqs@.subrange(0, i + 1).drop_last() =~= reqs@.subrange(0, i as int));
            match self.value_at(&reqs[i].0, reqs[i].1) {
                Ok(_) => {},
                Err(e) => {
                    proof {
                        self.lemma_first_error_prefix(reqs@, i as int + 1);
                    }
                    return Some(e);
                },
            }
            i = i + 1;
        }
        assert(reqs@.subrange(0, i as int) =~= reqs@);
        None
    }

    /// Where no request fails, each one names a known key and an offset
    /// inside its log.
    proof fn lemma_no_error(&self, reqs: Seq<(String, u64)>, i: int)
        requires
            self.first_error(reqs) is None,
            0 <= i < reqs.len(),
        ensures
            self.request_error(reqs[i].0@, reqs[i].1) is None,
        decreases reqs.len(),
    {
        if i < reqs.len() - 1 {
            assert(reqs.drop_last()[i] == reqs[i]);
            self.lemma_no_error(reqs.drop_last(), i);
        }
    }

    /// Commits each requested offset: a key's committed offset becomes at
    /// least the offset plus one and never goes down. Where any request names
    /// an unknown key or offset, nothing changes and its error is returned.
    pub fn commit(&mut self, offsets: &Vec<(String, u64)>) -> (r: Result<(), LogError>)
        requires
            old(self).wf(),
        ensures
            final(self).wf(),
            same_identity(*old(self), *final(self)),
            final(self).cur_id_spec() == old(self).cur_id_spec(),
            committed(*old(self), *final(self), offsets@),
            match old(self).first_error(offsets@) {
                Some(e) => r == Err::<(), LogError>(e),
                None => r == Ok::<(), LogError>(()),
            },
            forall|k: Seq<char>| #[trigger] final(self).committed_of(k) >= old(self).committed_of(k),
    {
        match self.first_failure(offsets) {
            Some(e) => {
                return Err(e);
            },
            None => {},
        }
        let ghost pre = *self;
        let mut i: usize = 0;
        while i < offsets.len()
            invariant
                self.wf(),
                pre.wf(),
                pre.first_error(offsets@) is None,
                same_identity(pre, *self),
                self.cur_id == pre.cur_id,
                i <= offsets@.len(),
                forall|k: Seq<char>|
                    #![trigger self.has_key(k)]
                    #![trigger self.log_of(k)]
                    #![trigger self.committed_of(k)]
                    self.has_key(k) == pre.has_key(k) && self.log_of(k) == pre.log_of(k) && self.committed_of(k)
                        == raised(pre.committed_of(k) as nat, offsets@.subrange(0, i as int), k),
            decreases offsets@.len() - i,
        {
            let ghost cur = self.logs@;
            let ghost k0 = offsets@[i as int].0@;
            let off = offsets[i].1;
            proof {
                pre.lemma_no_error(offsets@, i as int);
                assert(self.has_key(k0) && self.log_of(k0) == pre.log_of(k0));
                lemma_dom(cur, k0);
            }
            let t = match find_key(&self.logs, &offsets[i].0) {
                Some(t) => t,
                None => {
                    assert(false);
                    return Ok(());
                },
            };
            proof {
                lemma_lookup(cur, t as int);
                assert(off < self.logs@[t as int].1.1@.len());
            }
            let len = self.logs[t].1.1.len();
            let ghost before = *self;
            if self.logs[t].1.0 < off + 1 {
                self.logs[t].1.0 = off + 1;
                proof {
                    let e = self.logs@[t as int];
                    assert(self.logs@ =~= cur.update(t as int, (cur[t as int].0, e.1)));
                    lemma_update(cur, t as int, e.1);
                    assert forall|j: int| 0 <= j < self.logs@.len() implies #[trigger] self.logs@[j].1.0
                        <= self.logs@[j].1.1@.len() by {
                        if j != t {
                            assert(self.logs@[j] == cur[j]);
                        }
                    }
                }
            }
            proof {
                let s = offsets@.subrange(0, i + 1);
                assert(s.drop_last() =~= offsets@.subrange(0, i as int));
                assert(s.last() == offsets@[i as int]);
                assert forall|k: Seq<char>|
                    #![trigger self.has_key(k)]
                    #![trigger self.log_of(k)]
                    #![trigger self.committed_of(k)]
                    self.has_key(k) == pre.has_key(k) && self.log_of(k) == pre.log_of(k) && self.committed_of(k)
                        == raised(pre.committed_of(k) as nat, s, k) by {
                    assert(before.has_key(k) == pre.has_key(k));
                    assert(before.log_of(k) == pre.log_of(k));
                    assert(before.committed_of(k) == raised(pre.committed_of(k) as nat, s.drop_last(), k));
                    if k == k0 {
                        assert(self.logs@[t as int].1.1 == cur[t as int].1.1);
                    }
                }
            }
            i = i + 1;
        }
        proof {
            assert(offsets@.subrange(0, i as int) =~= offsets@);
            assert forall|k: Seq<char>| #[trigger] self.committed_of(k) >= pre.committed_of(k) by {
                lemma_raised_grows(pre.committed_of(k) as nat, offsets@, k);
            }
        }
        Ok(())
    }

    /// Handles one body; requests are answered with replies stamped by the
    /// current id, and failed log requests with an error body.
    pub fn handle_body(&mut self, body: &Body) -> (r: Option<Body>)
        requires
            old(self).wf(),
            old(self).initialized_spec() || body is Init,
            !(old(self).initialized_spec() && body is Init),
        ensures
            final(self).wf(),
            final(self).cur_id_spec() == old(self).cur_id_spec(),
            stepped(*old(self), old(self).cur_id_spec(), *body, *final(self), r),
    {
        match body {
            Body::Init { msg_id, node_id, node_ids } => {
                self.id = node_id.clone();
                self.peers = clone_strings(node_ids);
                self.initialized = true;
                Some(Body::InitOk { msg_id: self.cur_id, in_reply_to: *msg_id })
            },
            Body::Send { msg_id, key, msg } => {
                let offset = self.append(key, *msg);
                Some(Body::SendOk { msg_id: self.cur_id, in_reply_to: *msg_id, offset })
            },
            Body::Poll { msg_id, offsets } => Some(
                match self.poll(offsets) {
                    Ok(msgs) => Body::PollOk { msg_id: self.cur_id, in_reply_to: *msg_id, msgs },
                    Err(error) => Body::Error { msg_id: self.cur_id, in_reply_to: *msg_id, error },
                },
            ),
            Body::CommitOffsets { msg_id, offsets } => Some(
                match self.commit(offsets) {
                    Ok(()) => Body::CommitOffsetsOk { msg_id: self.cur_id, in_reply_to: *msg_id },
                    Err(error) => Body::Error { msg_id: self.cur_id, in_reply_to: *msg_id, error },
                },
            ),
            Body::ListCommittedOffsets { msg_id, keys } => Some(
                Body::ListCommittedOffsetsOk {
                    msg_id: self.cur_id,
                    in_reply_to: *msg_id,
                    offsets: self.list_committed(keys),
                },
            ),
            _ => None,
        }
    }

    /// Handles one inbound message and returns the reply, if the body asks
    /// for one.
    pub fn handle_message(&mut self, message: Message) -> (r: Vec<Message>)
        requires
            old(self).wf(),
            old(self).initialized_spec() || message.body is Init,
            !(old(self).initialized_spec() && message.body is Init),
            old(self).cur_id_spec() < u64::MAX,
        ensures
            final(self).wf(),
            r@.len() <= 1,
            stepped(
                *old(self),
                old(self).cur_id_spec(),
                message.body,
                *final(self),
                if r@.len() == 1 {
                    Some(r@[0].body)
                } else {
                    None
                },
            ),
            r@.len() == 1 ==> r@[0].src == message.dest && r@[0].dest == message.src
                && final(self).cur_id_spec() == old(self).cur_id_spec() + 1,
            r@.len() == 0 ==> final(self).cur_id_spec() == old(self).cur_id_spec(),
    {
        let mut messages: Vec<Message> = Vec::new();
        let reply = self.handle_body(&message.body);
        let ghost rep = reply;
        match reply {
            Some(body) => {
                messages.push(Message { src: message.dest, dest: message.src, body });
                let ghost mid = *self;
                self.cur_id = self.cur_id + 1;
                proof {
                    Self::lemma_restamp(*old(self), old(self).cur_id, message.body, mid, *self, rep);
                }
            },
            None => {},
        }
        messages
    }
}

/// Appends in a row under one key: `states[i + 1]` is `states[i]` with
/// `values[i]` appended under `key`, and the append returned `offsets[i]`.
pub open spec fn appends(states: Seq<Node>, key: Seq<char>, values: Seq<u64>, offsets: Seq<u64>) -> bool {
    &&& states.len() == values.len() + 1
    &&& offsets.len() == values.len()
    &&& forall|i: int|
        0 <= i < values.len() ==> appended(#[trigger] states[i], states[i + 1], key, values[i])
            && offsets[i] == states[i].log_of(key).len()
}

proof fn lemma_appends_prefix(states: Seq<Node>, key: Seq<char>, values: Seq<u64>, offsets: Seq<u64>, k: int)
    requires
        appends(states, key, values, offsets),
        !states[0].has_key(key),
        0 <= k <= values.len(),
    ensures
        states[k].log_of(key) == values.subrange(0, k),
        k > 0 ==> states[k].has_key(key),
    decreases k,
{
    if k == 0 {
        assert(values.subrange(0, 0) =~= Seq::<u64>::empty());
    } else {
        lemma_appends_prefix(states, key, values, offsets, k - 1);
        assert(appended(states[k - 1], states[k], key, values[k - 1]));
        assert(values.subrange(0, k) =~= values.subrange(0, k - 1).push(values[k - 1]));
    }
}

/// Appends to a new key hand out the offsets 0, 1, 2, ... in call order, and
/// each offset then reads back exactly the value appended under it.
pub proof fn lemma_append_offsets(states: Seq<Node>, key: Seq<char>, values: Seq<u64>, offsets: Seq<u64>)
    requires
        appends(states, key, values, offsets),
        !states[0].has_key(key),
    ensures
        forall|i: int| 0 <= i < values.len() ==> #[trigger] offsets[i] == i,
        states.last().log_of(key) == values,
        forall|i: int|
            0 <= i < values.len() ==> states.last().request_error(key, i as u64) is None
                && #[trigger] states.last().log_of(key)[i] == values[i],
{
    assert forall|i: int| 0 <= i < values.len() implies #[trigger] offsets[i] == i by {
        lemma_appends_prefix(states, key, values, offsets, i);
        assert(appended(states[i], states[i + 1], key, values[i]));
    }
    lemma_appends_prefix(states, key, values, offsets, values.len() as int);
    assert(values.subrange(0, values.len() as int) =~= values);
}

/// Committing one offset and then another leaves the key's committed offset
/// at the larger of the two plus one, whatever the order: an earlier offset
/// committed late never moves the watermark back.
pub proof fn lemma_commit_order(c: nat, key: String, o1: u64, o2: u64)
    ensures
        raised(raised(c, seq![(key, o1)], key@), seq![(key, o2)], key@) == raised(
            raised(c, seq![(key, o2)], key@),
            seq![(key, o1)],
            key@,
        ),
        raised(raised(c, seq![(key, o1)], key@), seq![(key, o2)], key@) >= o1 + 1,
        raised(raised(c, seq![(key, o1)], key@), seq![(key, o2)], key@) >= o2 + 1,
        raised(raised(c, seq![(key, o1)], key@), seq![(key, o2)], key@) >= c,
{
    lemma_raised_one(c, key, o1);
    lemma_raised_one(c, key, o2);
    lemma_raised_one(raised(c, seq![(key, o1)], key@), key, o2);
    lemma_raised_one(raised(c, seq![(key, o2)], key@), key, o1);
}

proof fn lemma_raised_one(c: nat, key: String, o: u64)
    ensures
        raised(c, seq![(key, o)], key@) == if c < o + 1 {
            (o + 1) as nat
        } else {
            c
        },
{
    let s = seq![(key, o)];
    assert(s.drop_last() =~= Seq::<(String, u64)>::empty());
    assert(raised(c, s.drop_last(), key@) == c);
    assert(s.last() == (key, o));
}

/// Commits only ever raise a committed offset.
pub proof fn lemma_raised_grows(c: nat, reqs: Seq<(String, u64)>, k: Seq<char>)
    ensures
        raised(c, reqs, k) >= c,
    decreases reqs.len(),
{
    if reqs.len() > 0 {
        lemma_raised_grows(c, reqs.drop_last(), k);
    }
}

/// A copy of a list of strings.
fn clone_strings(v: &Vec<String>) -> (r: Vec<String>)
    ensures
        r@ == v@,
{
    let mut r: Vec<String> = Vec::new();
    let mut i: usize = 0;
    while i < v.len()
        invariant
            i <= v@.len(),
            r@ == v@.subrange(0, i as int),
        decreases v@.len() - i,
    {
        r.push(v[i].clone());
        i = i + 1;
    }
    assert(r@ =~= v@);
    r
}

} // verus!
