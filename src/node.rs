//! The node: the dissemination engine and the decisions of the event loop. Each
//! method takes one event (a local publish, a frame from a peer, a discovery, an
//! expiry, a heartbeat) and returns what to send.
use vstd::prelude::*;
use crate::auth::{authentic, content_id, content_id_spec, sign_message, signed_bytes, verify, LocalKey};
use crate::crypto::ed25519_signature;
use crate::directory::PeerDirectory;
use crate::mesh::{difference, lemma_mesh_within_marks, TopicMesh};
use crate::message::{encode_spec, parse, GossipError, Message, MessageView};
use crate::seen::{live, SeenCache};
use crate::wire::{bytes_eq, listed};

verus! {

/// The longest topic name accepted, in bytes.
pub const MAX_TOPIC_LEN: usize = 256;

/// A topic name is between one and `MAX_TOPIC_LEN` bytes.
pub open spec fn topic_ok(topic: Seq<u8>) -> bool {
    0 < topic.len() <= MAX_TOPIC_LEN
}

/// The protocol's tuning parameters.
#[derive(Clone, Copy, Debug)]
pub struct Config {
    /// The largest payload published or accepted.
    pub max_payload: usize,
    /// The mesh low-water mark.
    pub d_lo: usize,
    /// The mesh high-water mark.
    pub d_hi: usize,
    /// How long a content id suppresses duplicates.
    pub seen_window: u64,
    /// How long a discovery keeps a peer alive.
    pub peer_ttl: u64,
}

impl Config {
    pub open spec fn valid(&self) -> bool {
        self.d_lo <= self.d_hi && self.max_payload <= u32::MAX && self.seen_window > 0
    }

    /// 64 KiB payloads, a mesh of four to twelve peers, a two-minute seen window
    /// and a two-minute peer lifetime, with time in seconds.
    pub fn standard() -> (r: Config)
        ensures
            r.valid(),
            r.max_payload == crate::message::DEFAULT_MAX_PAYLOAD,
    {
        Config { max_payload: crate::message::DEFAULT_MAX_PAYLOAD, d_lo: 4, d_hi: 12, seen_window: 120, peer_ttl: 120 }
    }
}

/// A frame to send to the peer with handle `to`.
pub struct Outbound {
    pub to: u64,
    pub frame: Vec<u8>,
}

/// What a heartbeat changed in one topic's mesh, to be told to the peer.
pub struct MeshChange {
    pub peer: u64,
    pub topic: Vec<u8>,
    /// True for a graft, false for a prune.
    pub graft: bool,
}

/// What came of a frame from a peer.
pub struct Received {
    /// The message for the application, the first time its content id is seen.
    pub deliver: Option<Message>,
    /// The frame again, for the other mesh peers of its topic.
    pub forward: Vec<Outbound>,
}

/// Some frame of `sends` goes to `x`.
pub open spec fn reaches(sends: Seq<Outbound>, x: u64) -> bool {
    exists|k: int| 0 <= k < sends.len() && (#[trigger] sends[k]).to == x
}

/// `sends` carry `frame` to exactly the peers of `mesh` other than `from`.
pub open spec fn sends_to(sends: Seq<Outbound>, mesh: Seq<u64>, from: Option<u64>, frame: Seq<u8>) -> bool {
    &&& forall|k: int| 0 <= k < sends.len() ==> (#[trigger] sends[k]).frame@ == frame
    &&& forall|x: u64| #[trigger] reaches(sends, x) <==> (mesh.contains(x) && from != Some(x))
    &&& forall|j: int, k: int| 0 <= j < sends.len() && 0 <= k < sends.len() && j != k ==> (#[trigger] sends[j]).to != (#[trigger] sends[k]).to
}

/// The local end of the gossip overlay.
pub struct Node {
    key: LocalKey,
    config: Config,
    next_seq: u64,
    directory: PeerDirectory,
    topics: Vec<TopicMesh>,
    seen: SeenCache,
}

impl Node {
    /// Every part well formed, one mesh per topic, and every peer in a mesh or
    /// aware of a topic live in the directory.
    pub closed spec fn wf(&self) -> bool {
        &&& self.key.wf()
        &&& self.config.valid()
        &&& self.directory.wf()
        &&& self.seen.window_spec() == self.config.seen_window
        &&& forall|i: int| 0 <= i < self.topics@.len() ==> (#[trigger] self.topics@[i]).wf()
        &&& forall|i: int, j: int|
            0 <= i < j < self.topics@.len() ==> (#[trigger] self.topics@[i]).topic_spec()
                != (#[trigger] self.topics@[j]).topic_spec()
        &&& forall|i: int, x: u64|
            0 <= i < self.topics@.len() && #[trigger] self.topics@[i].aware_spec().contains(x)
                ==> self.directory.has_handle(x)
    }

    pub closed spec fn key_spec(&self) -> LocalKey {
        self.key
    }

    pub closed spec fn config_spec(&self) -> Config {
        self.config
    }

    pub closed spec fn next_seq_spec(&self) -> u64 {
        self.next_seq
    }

    pub closed spec fn directory_spec(&self) -> PeerDirectory {
        self.directory
    }

    pub closed spec fn topics_spec(&self) -> Seq<TopicMesh> {
        self.topics@
    }

    pub closed spec fn seen_spec(&self) -> SeenCache {
        self.seen
    }

    /// Whether the node is subscribed to `topic`.
    pub open spec fn subscribed(&self, topic: Seq<u8>) -> bool {
        has_topic(self.topics_spec(), topic)
    }

    /// The mesh of `topic`; empty where the node is not subscribed.
    pub open spec fn mesh_of(&self, topic: Seq<u8>) -> Seq<u64> {
        mesh_in(self.topics_spec(), topic)
    }

    /// A node with no peers and no topics.
    pub fn new(key: LocalKey, config: Config) -> (r: Node)
        requires
            key.wf(),
            config.valid(),
        ensures
            r.wf(),
            r.key_spec() == key,
            r.config_spec() == config,
            r.next_seq_spec() == 1,
            r.topics_spec().len() == 0,
    {
        Node {
            key,
            config,
            next_seq: 1,
            directory: PeerDirectory::new(config.peer_ttl),
            topics: Vec::new(),
            seen: SeenCache::new(config.seen_window),
        }
    }

    /// The local peer id.
    pub fn local_peer_id(&self) -> (r: Vec<u8>)
        requires
            self.wf(),
        ensures
            r@ == self.key_spec().peer_id_spec(),
    {
        self.key.peer_id()
    }

    /// The sequence number the next publish uses.
    pub fn next_sequence(&self) -> (r: u64)
        ensures
            r == self.next_seq_spec(),
    {
        self.next_seq
    }

    /// The handle the next newly discovered peer gets.
    pub fn next_handle(&self) -> (r: u64)
        ensures
            r == self.directory_spec().next_handle_spec(),
    {
        self.directory.next_handle()
    }

    /// The handle of the live peer `id`, if it is live.
    pub fn handle_of(&self, id: &Vec<u8>) -> (r: Option<u64>)
        requires
            self.wf(),
        ensures
            match r {
                Some(h) => self.directory_spec().has(h, id@),
                None => forall|h: u64| !#[trigger] self.directory_spec().has(h, id@),
            },
    {
        self.directory.handle_of(id)
    }

    /// The id of the live peer with handle `h`, if there is one.
    pub fn peer_id_of(&self, h: u64) -> (r: Option<Vec<u8>>)
        requires
            self.wf(),
        ensures
            match r {
                Some(id) => self.directory_spec().has(h, id@),
                None => !self.directory_spec().has_handle(h),
            },
    {
        self.directory.peer_id_of(h)
    }

    fn find_topic(&self, topic: &Vec<u8>) -> (r: Option<usize>)
        requires
            self.wf(),
        ensures
            match r {
                Some(i) => i < self.topics@.len() && self.topics@[i as int].topic_spec() == topic@
                    && self.subscribed(topic@)
                    && self.mesh_of(topic@) == self.topics@[i as int].mesh_spec(),
                None => !self.subscribed(topic@),
            },
    {
        let mut i: usize = 0;
        while i < self.topics.len()
            invariant
                self.wf(),
                i <= self.topics@.len(),
                forall|j: int| 0 <= j < i ==> (#[trigger] self.topics@[j]).topic_spec() != topic@,
            decreases self.topics@.len() - i,
        {
            if bytes_eq(self.topics[i].topic(), topic) {
                proof {
                    assert(self.topics_spec()[i as int].topic_spec() == topic@);
                    assert(self.subscribed(topic@));
                    let j = choose|j: int| 0 <= j < self.topics_spec().len() && (#[trigger] self.topics_spec()[j]).topic_spec() == topic@;
                    assert(self.topics_spec()[j] == self.topics@[j]);
                    if j != i {
                        if j < i {
                            assert(self.topics@[j].topic_spec() != self.topics@[i as int].topic_spec());
                        } else {
                            let ii = i as int;
                            assert(0 <= ii < j < self.topics@.len());
                            assert(self.topics@[ii].topic_spec() != self.topics@[j].topic_spec());
                        }
                    }
                }
                return Some(i);
            }
            i = i + 1;
        }
        proof {
            assert forall|j: int| 0 <= j < self.topics_spec().len() implies (#[trigger] self.topics_spec()[j]).topic_spec() != topic@ by {
                assert(self.topics_spec()[j] == self.topics@[j]);
            }
        }
        None
    }

    /// The mesh peers of `topic`, if subscribed.
    pub fn mesh_peers(&self, topic: &Vec<u8>) -> (r: Option<Vec<u64>>)
        requires
            self.wf(),
        ensures
            r is Some <==> self.subscribed(topic@),
            r is Some ==> r.unwrap()@ == self.mesh_of(topic@),
    {
        match self.find_topic(topic) {
            Some(i) => {
                let m = self.topics[i].mesh().clone();
                assert(m@ =~= self.topics@[i as int].mesh_spec());
                Some(m)
            },
            None => None,
        }
    }

    /// Subscribes to `topic`, with every live peer aware of it and an empty mesh
    /// until the next heartbeat. False, and nothing changes, for an invalid name
    /// or a topic already subscribed.
    pub fn subscribe(&mut self, topic: &Vec<u8>) -> (r: bool)
        requires
            old(self).wf(),
        ensures
            final(self).wf(),
            r == (topic_ok(topic@) && !old(self).subscribed(topic@)),
            r ==> final(self).subscribed(topic@) && final(self).mesh_of(topic@).len() == 0,
            !r ==> *final(self) == *old(self),
            final(self).key_spec() == old(self).key_spec(),
            final(self).next_seq_spec() == old(self).next_seq_spec(),
            final(self).directory_spec() == old(self).directory_spec(),
    {
        if topic.len() == 0 || topic.len() > MAX_TOPIC_LEN {
            return false;
        }
        if self.find_topic(topic).is_some() {
            return false;
        }
        let ghost before = *self;
        let peers = self.directory.peers();
        let t = TopicMesh::new(topic.clone(), peers);
        self.topics.push(t);
        proof {
            let n = before.topics@.len() as int;
            assert(self.topics@[n] == t);
            assert forall|i: int, j: int|
                0 <= i < j < self.topics@.len() implies (#[trigger] self.topics@[i]).topic_spec()
                    != (#[trigger] self.topics@[j]).topic_spec() by {
                if j == n {
                    assert(self.topics@[i] == before.topics@[i]);
                    assert(before.topics_spec()[i].topic_spec() == before.topics@[i].topic_spec());
                    assert(before.topics@[i].topic_spec() != topic@);
                } else {
                    assert(before.topics@[i].topic_spec() != before.topics@[j].topic_spec());
                }
            }
            assert forall|i: int, x: u64|
                0 <= i < self.topics@.len() && #[trigger] self.topics@[i].aware_spec().contains(x)
                implies self.directory.has_handle(x) by {
                if i < n {
                    assert(self.topics@[i] == before.topics@[i]);
                }
            }
            assert forall|i: int| 0 <= i < self.topics@.len() implies (#[trigger] self.topics@[i]).wf() by {
                if i < n {
                    assert(self.topics@[i] == before.topics@[i]);
                }
            }
            assert(self.subscribed(topic@)) by {
                assert(self.topics_spec()[n].topic_spec() == topic@);
            }
            let j = choose|j: int| 0 <= j < self.topics_spec().len() && (#[trigger] self.topics_spec()[j]).topic_spec() == topic@;
            if j != n {
                assert(self.topics@[j] == before.topics@[j]);
                assert(before.topics_spec()[j].topic_spec() == topic@);
                assert(before.subscribed(topic@));
            }
        }
        true
    }

    /// Leaves `topic`; false where the node was not subscribed.
    pub fn unsubscribe(&mut self, topic: &Vec<u8>) -> (r: bool)
        requires
            old(self).wf(),
        ensures
            final(self).wf(),
            r == old(self).subscribed(topic@),
            !final(self).subscribed(topic@),
            final(self).key_spec() == old(self).key_spec(),
            final(self).next_seq_spec() == old(self).next_seq_spec(),
            final(self).directory_spec() == old(self).directory_spec(),
    {
        match self.find_topic(topic) {
            None => false,
            Some(i) => {
                let ghost before = *self;
                assert(before.topics_spec()[i as int].topic_spec() == topic@);
                let _t = self.topics.remove(i);
                proof {
                    assert forall|j: int| 0 <= j < self.topics@.len() implies #[trigger] self.topics@[j]
                        == before.topics@[if j < i { j } else { j + 1 }] by {}
                    assert forall|a: int, b: int|
                        0 <= a < b < self.topics@.len() implies (#[trigger] self.topics@[a]).topic_spec()
                            != (#[trigger] self.topics@[b]).topic_spec() by {
                        let ka = if a < i { a } else { a + 1 };
                        let kb = if b < i { b } else { b + 1 };
                        assert(self.topics@[a] == before.topics@[ka]);
                        assert(self.topics@[b] == before.topics@[kb]);
                        assert(before.topics@[ka].topic_spec() != before.topics@[kb].topic_spec());
                    }
                    assert forall|a: int, x: u64|
                        0 <= a < self.topics@.len() && #[trigger] self.topics@[a].aware_spec().contains(x)
                        implies self.directory.has_handle(x) by {
                        let ka = if a < i { a } else { a + 1 };
                        assert(self.topics@[a] == before.topics@[ka]);
                    }
                    assert forall|a: int| 0 <= a < self.topics@.len() implies (#[trigger] self.topics@[a]).wf() by {
                        let ka = if a < i { a } else { a + 1 };
                        assert(self.topics@[a] == before.topics@[ka]);
                    }
                    if self.subscribed(topic@) {
                        let j = choose|j: int| 0 <= j < self.topics_spec().len() && (#[trigger] self.topics_spec()[j]).topic_spec() == topic@;
                        let kj = if j < i { j } else { j + 1 };
                        assert(self.topics_spec()[j] == self.topics@[j]);
                        assert(self.topics@[j] == before.topics@[kj]);
                        if kj < i {
                            assert(before.topics@[kj].topic_spec() != before.topics@[i as int].topic_spec());
                        } else {
                            assert(before.topics@[i as int].topic_spec() != before.topics@[kj].topic_spec());
                        }
                    }
                }
                true
            },
        }
    }

    /// Publishes `payload` on `topic`: signs it with the next sequence number,
    /// records its content id so that echoes are dropped, and sends it to every
    /// mesh peer of the topic. `ConfigurationError`, with nothing sent or changed,
    /// exactly for an invalid topic name or a payload over the configured cap.
    pub fn publish(&mut self, topic: &Vec<u8>, payload: &Vec<u8>, now: u64) -> (r: Result<(Message, Vec<Outbound>), GossipError>)
        requires
            old(self).wf(),
            old(self).next_seq_spec() < u64::MAX,
        ensures
            final(self).wf(),
            r is Err <==> (payload@.len() > old(self).config_spec().max_payload || !topic_ok(topic@)),
            r is Err ==> r == Err::<(Message, Vec<Outbound>), GossipError>(GossipError::ConfigurationError)
                && *final(self) == *old(self),
            r is Ok ==> published(*old(self), *final(self), topic@, payload@, now, r.unwrap().0@, r.unwrap().1@),
    {
        if payload.len() > self.config.max_payload || topic.len() == 0 || topic.len() > MAX_TOPIC_LEN {
            return Err(GossipError::ConfigurationError);
        }
        let ghost before = *self;
        let seq = self.next_seq;
        let m = sign_message(&self.key, topic, seq, payload);
        let frame = m.encode();
        self.seen.insert(&m.id, &frame, now);
        self.next_seq = seq + 1;
        let sends = match self.find_topic(topic) {
            Some(i) => {
                proof {
                    self.topics@[i as int].lemma_wf();
                }
                sends_for(self.topics[i].mesh(), None, &frame)
            },
            None => Vec::new(),
        };
        proof {
            assert(self.mesh_of(topic@) == before.mesh_of(topic@));
        }
        Ok((m, sends))
    }

    /// A frame from the peer with handle `from`. Malformed frames, frames whose
    /// signature does not verify and frames whose content id is not the digest
    /// of their content are refused and change nothing. A message whose content
    /// id was seen within the window is dropped silently. Any other is recorded,
    /// handed to the application and forwarded to the topic's other mesh peers.
    pub fn on_receive(&mut self, from: u64, bytes: &Vec<u8>, now: u64) -> (r: Result<Received, GossipError>)
        requires
            old(self).wf(),
        ensures
            final(self).wf(),
            r is Err ==> *final(self) == *old(self),
            r == Err::<Received, GossipError>(GossipError::MalformedPayload) <==> (parse(bytes@, old(self).config_spec().max_payload) is None || (
                authentic(frame_message(bytes@, old(self).config_spec().max_payload)) && !id_matches(frame_message(bytes@, old(self).config_spec().max_payload)))),
            r == Err::<Received, GossipError>(GossipError::AuthenticationFailure) <==> (parse(bytes@, old(self).config_spec().max_payload) is Some
                && !authentic(frame_message(bytes@, old(self).config_spec().max_payload))),
            r is Ok ==> received(*old(self), *final(self), from, bytes@, now, r.unwrap()),
            r is Err ==> r == Err::<Received, GossipError>(GossipError::MalformedPayload) || r == Err::<Received, GossipError>(GossipError::AuthenticationFailure),
    {
        let m = match Message::decode(bytes, self.config.max_payload) {
            Ok(m) => m,
            Err(e) => return Err(e),
        };
        match verify(&m) {
            Ok(()) => {},
            Err(e) => return Err(e),
        }
        let id = content_id(&m.sender, m.seq, &m.payload);
        if !bytes_eq(&id, &m.id) {
            return Err(GossipError::MalformedPayload);
        }
        let ghost before = *self;
        if !self.seen.check_and_insert(&m.id, bytes, now) {
            return Ok(Received { deliver: None, forward: Vec::new() });
        }
        let forward = match self.find_topic(&m.topic) {
            Some(i) => {
                proof {
                    self.topics@[i as int].lemma_wf();
                }
                sends_for(self.topics[i].mesh(), Some(from), bytes)
            },
            None => Vec::new(),
        };
        proof {
            assert(self.mesh_of(m@.topic) == before.mesh_of(m@.topic));
        }
        Ok(Received { deliver: Some(m), forward })
    }

    /// A peer found by local discovery: admits or refreshes it in the directory
    /// and makes it aware of every subscribed topic; no mesh changes before the
    /// next heartbeat. Returns its handle.
    pub fn on_discovered(&mut self, id: &Vec<u8>, address: String, now: u64) -> (r: u64)
        requires
            old(self).wf(),
            old(self).directory_spec().next_handle_spec() < u64::MAX,
        ensures
            final(self).wf(),
            final(self).directory_spec().has(r, id@),
            forall|h: u64, x: Seq<u8>|
                #[trigger] final(self).directory_spec().has(h, x) <==> (old(self).directory_spec().has(h, x) || (h == r && x == id@)),
            (exists|h: u64| old(self).directory_spec().has(h, id@)) ==> old(self).directory_spec().has(r, id@),
            !(exists|h: u64| old(self).directory_spec().has(h, id@)) ==> r == old(self).directory_spec().next_handle_spec(),
            final(self).topics_spec().len() == old(self).topics_spec().len(),
            forall|i: int| 0 <= i < final(self).topics_spec().len() ==> {
                &&& (#[trigger] final(self).topics_spec()[i]).topic_spec() == old(self).topics_spec()[i].topic_spec()
                &&& final(self).topics_spec()[i].mesh_spec() == old(self).topics_spec()[i].mesh_spec()
                &&& forall|x: u64| final(self).topics_spec()[i].aware_spec().contains(x) <==> (
                    old(self).topics_spec()[i].aware_spec().contains(x) || x == r)
            },
            final(self).key_spec() == old(self).key_spec(),
            final(self).config_spec() == old(self).config_spec(),
            final(self).next_seq_spec() == old(self).next_seq_spec(),
            final(self).seen_spec() == old(self).seen_spec(),
    {
        let h = self.directory.on_discovered(id, address, now);
        proof {
            assert(self.directory.has_handle(h));
            assert forall|x: u64| old(self).directory.has_handle(x) implies self.directory.has_handle(x) by {
                let y = choose|y: Seq<u8>| old(self).directory.has(x, y);
                assert(self.directory.has(x, y));
            }
        }
        let mut i: usize = 0;
        while i < self.topics.len()
            invariant
                self.key == old(self).key,
                self.config == old(self).config,
                self.next_seq == old(self).next_seq,
                self.seen == old(self).seen,
                self.directory.wf(),
                self.directory.has_handle(h),
                forall|x: u64| old(self).directory.has_handle(x) ==> self.directory.has_handle(x),
                forall|h2: u64, x: Seq<u8>|
                    #[trigger] self.directory.has(h2, x) <==> (old(self).directory.has(h2, x) || (h2 == h && x == id@)),
                self.topics@.len() == old(self).topics@.len(),
                i <= self.topics@.len(),
                forall|j: int| 0 <= j < self.topics@.len() ==> (#[trigger] self.topics@[j]).wf(),
                forall|j: int| 0 <= j < self.topics@.len() ==> (#[trigger] self.topics@[j]).topic_spec() == old(self).topics@[j].topic_spec(),
                forall|j: int| 0 <= j < self.topics@.len() ==> (#[trigger] self.topics@[j]).mesh_spec() == old(self).topics@[j].mesh_spec(),
                forall|j: int| i <= j < self.topics@.len() ==> (#[trigger] self.topics@[j]) == old(self).topics@[j],
                forall|j: int, x: u64| 0 <= j < i ==> (#[trigger] self.topics@[j].aware_spec().contains(x) <==> (
                    old(self).topics@[j].aware_spec().contains(x) || x == h)),
            decreases self.topics@.len() - i,
        {
            let mut t = self.topics.remove(i);
            t.add_aware(h);
            self.topics.insert(i, t);
            i = i + 1;
        }
        proof {
            assert forall|a: int, b: int|
                0 <= a < b < self.topics@.len() implies (#[trigger] self.topics@[a]).topic_spec()
                    != (#[trigger] self.topics@[b]).topic_spec() by {
                assert(old(self).topics@[a].topic_spec() != old(self).topics@[b].topic_spec());
            }
            assert forall|a: int, x: u64|
                0 <= a < self.topics@.len() && #[trigger] self.topics@[a].aware_spec().contains(x)
                implies self.directory.has_handle(x) by {
                if x != h {
                    assert(old(self).topics@[a].aware_spec().contains(x));
                }
            }
        }
        h
    }

    /// A peer that discovery reports gone, or that the caller drops: removed from
    /// the directory and from every mesh and aware set. Returns the handle it had.
    pub fn on_expired(&mut self, id: &Vec<u8>) -> (r: Option<u64>)
        requires
            old(self).wf(),
        ensures
            final(self).wf(),
            match r {
                Some(h) => old(self).directory_spec().has(h, id@) && !final(self).directory_spec().has_handle(h),
                None => forall|h: u64| !#[trigger] old(self).directory_spec().has(h, id@),
            },
            forall|h: u64| #[trigger] old(self).directory_spec().has(h, id@) ==> r == Some(h),
            forall|h: u64| #[trigger] final(self).directory_spec().has_handle(h) <==> (old(self).directory_spec().has_handle(h) && r != Some(h)),
            forall|h: u64, x: Seq<u8>|
                #[trigger] final(self).directory_spec().has(h, x) <==> (old(self).directory_spec().has(h, x) && x != id@),
            final(self).directory_spec().next_handle_spec() == old(self).directory_spec().next_handle_spec(),
            final(self).topics_spec().len() == old(self).topics_spec().len(),
            forall|i: int| 0 <= i < final(self).topics_spec().len() ==> {
                &&& (#[trigger] final(self).topics_spec()[i]).topic_spec() == old(self).topics_spec()[i].topic_spec()
                &&& forall|x: u64| final(self).topics_spec()[i].mesh_spec().contains(x) <==> (
                    old(self).topics_spec()[i].mesh_spec().contains(x) && r != Some(x))
                &&& forall|x: u64| final(self).topics_spec()[i].aware_spec().contains(x) <==> (
                    old(self).topics_spec()[i].aware_spec().contains(x) && r != Some(x))
            },
            final(self).key_spec() == old(self).key_spec(),
            final(self).config_spec() == old(self).config_spec(),
            final(self).next_seq_spec() == old(self).next_seq_spec(),
            final(self).seen_spec() == old(self).seen_spec(),
    {
        let r = self.directory.on_expired(id);
        let h = match r {
            Some(h) => h,
            None => {
                proof {
                    assert forall|a: int, x: u64|
                        0 <= a < self.topics@.len() && #[trigger] self.topics@[a].aware_spec().contains(x)
                        implies self.directory.has_handle(x) by {
                        assert(old(self).directory.has_handle(x));
                    }
                }
                return None;
            },
        };
        let ghost dir = self.directory;
        let mut i: usize = 0;
        while i < self.topics.len()
            invariant
                r == Some(h),
                self.directory == dir,
                self.key == old(self).key,
                self.config == old(self).config,
                self.next_seq == old(self).next_seq,
                self.seen == old(self).seen,
                self.directory.wf(),
                forall|x: u64| #[trigger] self.directory.has_handle(x) <==> (old(self).directory.has_handle(x) && r != Some(x)),
                self.topics@.len() == old(self).topics@.len(),
                i <= self.topics@.len(),
                forall|j: int| 0 <= j < self.topics@.len() ==> (#[trigger] self.topics@[j]).wf(),
                forall|j: int| 0 <= j < self.topics@.len() ==> (#[trigger] self.topics@[j]).topic_spec() == old(self).topics@[j].topic_spec(),
                forall|j: int| i <= j < self.topics@.len() ==> (#[trigger] self.topics@[j]) == old(self).topics@[j],
                forall|j: int, x: u64| 0 <= j < i ==> (#[trigger] self.topics@[j].aware_spec().contains(x) <==> (
                    old(self).topics@[j].aware_spec().contains(x) && x != h)),
                forall|j: int, x: u64| 0 <= j < i ==> (#[trigger] self.topics@[j].mesh_spec().contains(x) <==> (
                    old(self).topics@[j].mesh_spec().contains(x) && x != h)),
            decreases self.topics@.len() - i,
        {
            let mut t = self.topics.remove(i);
            t.remove_peer(h);
            self.topics.insert(i, t);
            i = i + 1;
        }
        proof {
            assert forall|a: int, b: int|
                0 <= a < b < self.topics@.len() implies (#[trigger] self.topics@[a]).topic_spec()
                    != (#[trigger] self.topics@[b]).topic_spec() by {
                assert(old(self).topics@[a].topic_spec() != old(self).topics@[b].topic_spec());
            }
            assert forall|a: int, x: u64|
                0 <= a < self.topics@.len() && #[trigger] self.topics@[a].aware_spec().contains(x)
                implies self.directory.has_handle(x) by {
                assert(old(self).topics@[a].aware_spec().contains(x));
            }
        }
        r
    }

    /// The defensive timeout: drops every peer whose deadline passed before `now`
    /// without a refresh, as an expiry would, and keeps every other. Returns the
    /// handles dropped.
    pub fn expire_stale(&mut self, now: u64) -> (r: Vec<u64>)
        requires
            old(self).wf(),
        ensures
            final(self).wf(),
            forall|h: u64, x: Seq<u8>| #[trigger] final(self).directory_spec().has(h, x) ==> old(self).directory_spec().has(h, x),
            forall|h: u64, x: Seq<u8>, d: u64|
                #[trigger] old(self).directory_spec().has_until(h, x, d) ==> (final(self).directory_spec().has(h, x) <==> d >= now),
            forall|h: u64| #[trigger] r@.contains(h) <==> (old(self).directory_spec().has_handle(h) && !final(self).directory_spec().has_handle(h)),
            final(self).topics_spec().len() == old(self).topics_spec().len(),
            final(self).key_spec() == old(self).key_spec(),
            final(self).config_spec() == old(self).config_spec(),
            final(self).next_seq_spec() == old(self).next_seq_spec(),
            final(self).seen_spec() == old(self).seen_spec(),
    {
        let ids = self.directory.stale(now);
        let mut gone: Vec<u64> = Vec::new();
        let mut i: usize = 0;
        while i < ids.len()
            invariant
                self.wf(),
                i <= ids@.len(),
                forall|id: Seq<u8>| #[trigger] listed(ids@, id) <==> old(self).directory.stale_id(id, now),
                forall|h: u64, x: Seq<u8>| #[trigger] self.directory.has(h, x) <==> (old(self).directory.has(h, x)
                    && !listed(ids@.subrange(0, i as int), x)),
                forall|h: u64| #[trigger] gone@.contains(h) <==> (old(self).directory.has_handle(h) && !self.directory.has_handle(h)),
                self.topics@.len() == old(self).topics@.len(),
                self.key == old(self).key,
                self.config == old(self).config,
                self.next_seq == old(self).next_seq,
                self.seen == old(self).seen,
            decreases ids@.len() - i,
        {
            let ghost pre = self.directory;
            let ghost pre_gone = gone@;
            let res = self.on_expired(&ids[i]);
            match res {
                Some(h) => gone.push(h),
                None => {},
            }
            proof {
                if let Some(h0) = res {
                    assert(pre.has(h0, ids@[i as int]@));
                    assert(pre.has_handle(h0));
                    assert(gone@ =~= pre_gone.push(h0));
                } else {
                    assert(gone@ == pre_gone);
                }
                assert forall|h: u64| #[trigger] pre.has_handle(h) implies old(self).directory.has_handle(h) by {
                    let x = choose|x: Seq<u8>| pre.has(h, x);
                    assert(old(self).directory.has(h, x));
                }
                assert forall|h: u64| #[trigger] gone@.contains(h) <==> (old(self).directory.has_handle(h) && !self.directory.has_handle(h)) by {
                    assert(self.directory.has_handle(h) <==> (pre.has_handle(h) && res != Some(h)));
                    assert(pre_gone.contains(h) <==> (old(self).directory.has_handle(h) && !pre.has_handle(h)));
                    if res == Some(h) {
                        assert(pre.has_handle(h));
                        assert(old(self).directory.has_handle(h));
                        assert(gone@.contains(h)) by {
                            assert(gone@[pre_gone.len() as int] == h);
                        }
                    } else {
                        if let Some(h0) = res {
                            vstd::seq_lib::lemma_seq_contains_after_push(pre_gone, h0, h);
                        }
                        assert(gone@.contains(h) <==> pre_gone.contains(h));
                    }
                }
                let s0 = ids@.subrange(0, i as int);
                let s1 = ids@.subrange(0, i + 1);
                assert forall|x: Seq<u8>| #[trigger] listed(s1, x) <==> (listed(s0, x) || x == ids@[i as int]@) by {
                    if listed(s1, x) {
                        let k = choose|k: int| 0 <= k < s1.len() && (#[trigger] s1[k])@ == x;
                        if k < i {
                            assert(s0[k] == s1[k]);
                        }
                    }
                    if listed(s0, x) {
                        let k = choose|k: int| 0 <= k < s0.len() && (#[trigger] s0[k])@ == x;
                        assert(s1[k] == s0[k]);
                    }
                    if x == ids@[i as int]@ {
                        assert(s1[i as int] == ids@[i as int]);
                    }
                }
            }
            i = i + 1;
        }
        proof {
            assert(ids@.subrange(0, ids@.len() as int) =~= ids@);
            assert forall|h: u64, x: Seq<u8>, d: u64|
                #[trigger] old(self).directory.has_until(h, x, d) implies (self.directory.has(h, x) <==> d >= now) by {
                old(self).directory.lemma_stale(h, x, d, now);
            }
        }
        gone
    }

    /// The content ids to announce to peers outside the mesh: every id that
    /// counts as seen at `now`.
    pub fn announce(&self, now: u64) -> (r: Vec<Vec<u8>>)
        ensures
            forall|x: Seq<u8>| #[trigger] listed(r@, x) <==> self.seen_spec().seen(x, now),
    {
        self.seen.recent(now)
    }

    /// The peers to announce to on `topic`: aware of it, outside its mesh.
    pub fn gossip_peers(&self, topic: &Vec<u8>) -> (r: Vec<u64>)
        requires
            self.wf(),
        ensures
            !self.subscribed(topic@) ==> r@.len() == 0,
            forall|i: int| 0 <= i < self.topics_spec().len() && (#[trigger] self.topics_spec()[i]).topic_spec() == topic@
                ==> forall|x: u64| r@.contains(x) <==> (self.topics_spec()[i].aware_spec().contains(x) && !self.topics_spec()[i].mesh_spec().contains(x)),
    {
        match self.find_topic(topic) {
            Some(i) => {
                let r = difference(self.topics[i].aware(), self.topics[i].mesh());
                proof {
                    assert forall|j: int| 0 <= j < self.topics_spec().len() && (#[trigger] self.topics_spec()[j]).topic_spec() == topic@
                        implies forall|x: u64| r@.contains(x) <==> (self.topics_spec()[j].aware_spec().contains(x) && !self.topics_spec()[j].mesh_spec().contains(x)) by {
                        assert(self.topics_spec()[j] == self.topics@[j]);
                        if j != i {
                            if j < i {
                                assert(self.topics@[j].topic_spec() != self.topics@[i as int].topic_spec());
                            } else {
                                assert(self.topics@[i as int].topic_spec() != self.topics@[j].topic_spec());
                            }
                        }
                    }
                }
                r
            },
            None => Vec::new(),
        }
    }

    /// An announcement of `ids` from a peer: the ids to ask it for, those that do
    /// not count as seen at `now`.
    pub fn on_ihave(&self, ids: &Vec<Vec<u8>>, now: u64) -> (r: Vec<Vec<u8>>)
        ensures
            forall|x: Seq<u8>| #[trigger] listed(r@, x) <==> (listed(ids@, x) && !self.seen_spec().seen(x, now)),
    {
        let mut r: Vec<Vec<u8>> = Vec::new();
        let mut i: usize = 0;
        while i < ids.len()
            invariant
                i <= ids@.len(),
                forall|x: Seq<u8>| #[trigger] listed(r@, x) <==> (listed(ids@.subrange(0, i as int), x) && !self.seen.seen(x, now)),
            decreases ids@.len() - i,
        {
            let ghost pre = r@;
            let ghost s0 = ids@.subrange(0, i as int);
            let ghost s1 = ids@.subrange(0, i + 1);
            let fresh = !self.seen.contains(&ids[i], now);
            if fresh {
                let id = ids[i].clone();
                assert(id@ =~= ids@[i as int]@);
                r.push(id);
            }
            proof {
                assert forall|x: Seq<u8>| #[trigger] listed(s1, x) <==> (listed(s0, x) || x == ids@[i as int]@) by {
                    if listed(s1, x) {
                        let k = choose|k: int| 0 <= k < s1.len() && (#[trigger] s1[k])@ == x;
                        if k < i {
                            assert(s0[k] == s1[k]);
                        }
                    }
                    if listed(s0, x) {
                        let k = choose|k: int| 0 <= k < s0.len() && (#[trigger] s0[k])@ == x;
                        assert(s1[k] == s0[k]);
                    }
                    if x == ids@[i as int]@ {
                        assert(s1[i as int] == ids@[i as int]);
                    }
                }
                assert forall|x: Seq<u8>| #[trigger] listed(r@, x) <==> (listed(pre, x) || (fresh && x == ids@[i as int]@)) by {
                    if listed(r@, x) {
                        let k = choose|k: int| 0 <= k < r@.len() && (#[trigger] r@[k])@ == x;
                        if k < pre.len() {
                            assert(pre[k] == r@[k]);
                        }
                    }
                    if listed(pre, x) {
                        let k = choose|k: int| 0 <= k < pre.len() && (#[trigger] pre[k])@ == x;
                        assert(r@[k] == pre[k]);
                    }
                    if fresh && x == ids@[i as int]@ {
                        assert(r@[pre.len() as int]@ == x);
                    }
                }
            }
            i = i + 1;
        }
        assert(ids@.subrange(0, ids@.len() as int) =~= ids@);
        r
    }

    /// A request for `ids` from a peer: the frames still held for those of them
    /// that count as seen at `now`, one per such id.
    pub fn on_iwant(&self, ids: &Vec<Vec<u8>>, now: u64) -> (r: Vec<Vec<u8>>)
        ensures
            forall|k: int| 0 <= k < r@.len() ==> answers(ids@, self.seen_spec(), (#[trigger] r@[k])@, now),
            forall|x: Seq<u8>| #[trigger] listed(ids@, x) && self.seen_spec().seen(x, now) ==> exists|k: int|
                0 <= k < r@.len() && #[trigger] self.seen_spec().cached(x, r@[k]@, now),
    {
        let mut r: Vec<Vec<u8>> = Vec::new();
        let mut i: usize = 0;
        while i < ids.len()
            invariant
                i <= ids@.len(),
                forall|k: int| 0 <= k < r@.len() ==> answers(ids@, self.seen, (#[trigger] r@[k])@, now),
                forall|j: int| 0 <= j < i && self.seen.seen((#[trigger] ids@[j])@, now) ==> exists|k: int|
                    0 <= k < r@.len() && self.seen.cached(ids@[j]@, r@[k]@, now),
            decreases ids@.len() - i,
        {
            let ghost pre = r@;
            match self.seen.frame_of(&ids[i], now) {
                Some(f) => {
                    r.push(f);
                    proof {
                        assert(listed(ids@, ids@[i as int]@)) by {
                            assert(ids@[i as int]@ == ids@[i as int]@);
                        }
                        assert forall|k: int| 0 <= k < r@.len() implies answers(ids@, self.seen, (#[trigger] r@[k])@, now) by {
                            if k < pre.len() {
                                assert(pre[k] == r@[k]);
                            } else {
                                assert(self.seen.cached(ids@[i as int]@, r@[k]@, now));
                            }
                        }
                        assert forall|j: int| 0 <= j < i + 1 && self.seen.seen((#[trigger] ids@[j])@, now) implies exists|k: int|
                            0 <= k < r@.len() && self.seen.cached(ids@[j]@, r@[k]@, now) by {
                            if j < i {
                                let k = choose|k: int| 0 <= k < pre.len() && self.seen.cached(ids@[j]@, pre[k]@, now);
                                assert(r@[k] == pre[k]);
                            } else {
                                assert(self.seen.cached(ids@[j]@, r@[pre.len() as int]@, now));
                            }
                        }
                    }
                },
                None => {},
            }
            i = i + 1;
        }
        proof {
            assert forall|x: Seq<u8>| #[trigger] listed(ids@, x) && self.seen.seen(x, now) implies exists|k: int|
                0 <= k < r@.len() && #[trigger] self.seen.cached(x, r@[k]@, now) by {
                let j = choose|j: int| 0 <= j < ids@.len() && (#[trigger] ids@[j])@ == x;
                assert(self.seen.seen(ids@[j]@, now));
            }
        }
        r
    }

    /// A graft request from peer `from` on `topic`: true when accepted, and `from`
    /// is then in the topic's mesh; false (answer with a prune) where the node is
    /// not subscribed, `from` is not aware of the topic, or the mesh is full.
    pub fn on_graft(&mut self, from: u64, topic: &Vec<u8>) -> (r: bool)
        requires
            old(self).wf(),
        ensures
            final(self).wf(),
            r == (old(self).subscribed(topic@) && old(self).mesh_change_ok(from, topic@)),
            final(self).topics_spec().len() == old(self).topics_spec().len(),
            forall|i: int| 0 <= i < final(self).topics_spec().len() ==> {
                &&& (#[trigger] final(self).topics_spec()[i]).topic_spec() == old(self).topics_spec()[i].topic_spec()
                &&& final(self).topics_spec()[i].aware_spec() == old(self).topics_spec()[i].aware_spec()
                &&& forall|x: u64| final(self).topics_spec()[i].mesh_spec().contains(x) <==> (
                    old(self).topics_spec()[i].mesh_spec().contains(x) || (r && x == from
                    && old(self).topics_spec()[i].topic_spec() == topic@))
            },
            final(self).directory_spec() == old(self).directory_spec(),
            final(self).key_spec() == old(self).key_spec(),
            final(self).config_spec() == old(self).config_spec(),
            final(self).next_seq_spec() == old(self).next_seq_spec(),
            final(self).seen_spec() == old(self).seen_spec(),
    {
        let i = match self.find_topic(topic) {
            Some(i) => i,
            None => return false,
        };
        let ghost before = *self;
        let mut t = self.topics.remove(i);
        let r = t.graft(from, self.config.d_hi);
        self.topics.insert(i, t);
        proof {
            assert(before.topics_spec()[i as int] == before.topics@[i as int]);
            assert forall|j: int| 0 <= j < self.topics@.len() && j != i implies #[trigger] self.topics@[j] == before.topics@[j] by {}
            assert forall|j: int| 0 <= j < self.topics@.len() implies (#[trigger] self.topics@[j]).wf() by {}
            assert forall|j: int| 0 <= j < self.topics@.len() && j != i implies before.topics@[j].topic_spec() != topic@ by {
                if j < i {
                    assert(before.topics@[j].topic_spec() != before.topics@[i as int].topic_spec());
                } else {
                    assert(before.topics@[i as int].topic_spec() != before.topics@[j].topic_spec());
                }
            }
            assert forall|a: int, b: int|
                0 <= a < b < self.topics@.len() implies (#[trigger] self.topics@[a]).topic_spec()
                    != (#[trigger] self.topics@[b]).topic_spec() by {
                assert(before.topics@[a].topic_spec() != before.topics@[b].topic_spec());
            }
            assert forall|a: int, x: u64|
                0 <= a < self.topics@.len() && #[trigger] self.topics@[a].aware_spec().contains(x)
                implies self.directory.has_handle(x) by {
                assert(before.topics@[a].aware_spec().contains(x));
            }
            let k = choose|k: int| 0 <= k < before.topics_spec().len() && (#[trigger] before.topics_spec()[k]).topic_spec() == topic@;
            assert(before.topics_spec()[k] == before.topics@[k]);
            assert(k == i);
        }
        r
    }

    /// Whether a graft from `from` on `topic` fits: `from` is aware of the topic
    /// and in its mesh already, or the mesh has room below the high-water mark.
    pub open spec fn mesh_change_ok(&self, from: u64, topic: Seq<u8>) -> bool {
        exists|i: int| 0 <= i < self.topics_spec().len() && (#[trigger] self.topics_spec()[i]).topic_spec() == topic
            && self.topics_spec()[i].aware_spec().contains(from)
            && (self.topics_spec()[i].mesh_spec().contains(from)
                || self.topics_spec()[i].mesh_spec().len() < self.config_spec().d_hi)
    }

    /// A prune from peer `from` on `topic`: `from` leaves the topic's mesh and
    /// stays aware of it.
    pub fn on_prune(&mut self, from: u64, topic: &Vec<u8>)
        requires
            old(self).wf(),
        ensures
            final(self).wf(),
            final(self).topics_spec().len() == old(self).topics_spec().len(),
            forall|i: int| 0 <= i < final(self).topics_spec().len() ==> {
                &&& (#[trigger] final(self).topics_spec()[i]).topic_spec() == old(self).topics_spec()[i].topic_spec()
                &&& final(self).topics_spec()[i].aware_spec() == old(self).topics_spec()[i].aware_spec()
                &&& forall|x: u64| final(self).topics_spec()[i].mesh_spec().contains(x) <==> (
                    old(self).topics_spec()[i].mesh_spec().contains(x) && !(x == from
                    && old(self).topics_spec()[i].topic_spec() == topic@))
            },
            final(self).directory_spec() == old(self).directory_spec(),
            final(self).key_spec() == old(self).key_spec(),
            final(self).config_spec() == old(self).config_spec(),
            final(self).next_seq_spec() == old(self).next_seq_spec(),
            final(self).seen_spec() == old(self).seen_spec(),
    {
        let i = match self.find_topic(topic) {
            Some(i) => i,
            None => return,
        };
        let ghost before = *self;
        let mut t = self.topics.remove(i);
        t.prune(from);
        self.topics.insert(i, t);
        proof {
            assert forall|j: int| 0 <= j < self.topics@.len() && j != i implies #[trigger] self.topics@[j] == before.topics@[j] by {}
            assert forall|j: int| 0 <= j < self.topics@.len() implies (#[trigger] self.topics@[j]).wf() by {}
            assert forall|j: int| 0 <= j < self.topics@.len() && j != i implies before.topics@[j].topic_spec() != topic@ by {
                if j < i {
                    assert(before.topics@[j].topic_spec() != before.topics@[i as int].topic_spec());
                } else {
                    assert(before.topics@[i as int].topic_spec() != before.topics@[j].topic_spec());
                }
            }
            assert forall|a: int, b: int|
                0 <= a < b < self.topics@.len() implies (#[trigger] self.topics@[a]).topic_spec()
                    != (#[trigger] self.topics@[b]).topic_spec() by {
                assert(before.topics@[a].topic_spec() != before.topics@[b].topic_spec());
            }
            assert forall|a: int, x: u64|
                0 <= a < self.topics@.len() && #[trigger] self.topics@[a].aware_spec().contains(x)
                implies self.directory.has_handle(x) by {
                assert(before.topics@[a].aware_spec().contains(x));
            }
        }
    }

    /// The heartbeat: drops expired content ids and rebalances every topic's
    /// mesh. Returns the grafts and prunes to tell the peers concerned.
    pub fn heartbeat(&mut self, now: u64, seed: u64) -> (r: Vec<MeshChange>)
        requires
            old(self).wf(),
        ensures
            final(self).wf(),
            final(self).topics_spec().len() == old(self).topics_spec().len(),
            forall|i: int| 0 <= i < final(self).topics_spec().len() ==> (#[trigger] final(self).topics_spec()[i]).rebalanced(
                &old(self).topics_spec()[i], old(self).config_spec().d_lo, old(self).config_spec().d_hi),
            forall|i: int| 0 <= i < final(self).topics_spec().len()
                && (#[trigger] final(self).topics_spec()[i]).aware_spec().len() >= old(self).config_spec().d_lo
                ==> old(self).config_spec().d_lo <= final(self).topics_spec()[i].mesh_spec().len() <= old(self).config_spec().d_hi,
            forall|x: Seq<u8>, t: u64| t >= now ==> #[trigger] final(self).seen_spec().seen(x, t) == old(self).seen_spec().seen(x, t),
            forall|k: int| 0 <= k < r@.len() ==> change_ok(#[trigger] r@[k], old(self).topics_spec(), final(self).topics_spec(), final(self).topics_spec().len() as int),
            forall|i: int, x: u64| 0 <= i < final(self).topics_spec().len() && #[trigger] final(self).topics_spec()[i].mesh_spec().contains(x)
                && !old(self).topics_spec()[i].mesh_spec().contains(x) ==> reported(r@, x, old(self).topics_spec()[i].topic_spec(), true),
            forall|i: int, x: u64| 0 <= i < final(self).topics_spec().len() && #[trigger] old(self).topics_spec()[i].mesh_spec().contains(x)
                && !final(self).topics_spec()[i].mesh_spec().contains(x) ==> reported(r@, x, old(self).topics_spec()[i].topic_spec(), false),
            final(self).directory_spec() == old(self).directory_spec(),
            final(self).key_spec() == old(self).key_spec(),
            final(self).config_spec() == old(self).config_spec(),
            final(self).next_seq_spec() == old(self).next_seq_spec(),
    {
        self.seen.sweep(now);
        let ghost swept = self.seen;
        let d_lo = self.config.d_lo;
        let d_hi = self.config.d_hi;
        let mut changes: Vec<MeshChange> = Vec::new();
        let mut i: usize = 0;
        while i < self.topics.len()
            invariant
                self.key == old(self).key,
                self.config == old(self).config,
                self.next_seq == old(self).next_seq,
                self.directory == old(self).directory,
                self.seen == swept,
                self.seen.window_spec() == old(self).seen.window_spec(),
                d_lo == self.config.d_lo,
                d_hi == self.config.d_hi,
                self.config.valid(),
                self.topics@.len() == old(self).topics@.len(),
                i <= self.topics@.len(),
                forall|j: int| 0 <= j < self.topics@.len() ==> (#[trigger] self.topics@[j]).wf(),
                forall|j: int| 0 <= j < self.topics@.len() ==> (#[trigger] self.topics@[j]).topic_spec() == old(self).topics@[j].topic_spec(),
                forall|j: int| 0 <= j < self.topics@.len() ==> (#[trigger] self.topics@[j]).aware_spec() == old(self).topics@[j].aware_spec(),
                forall|j: int| i <= j < self.topics@.len() ==> (#[trigger] self.topics@[j]) == old(self).topics@[j],
                forall|j: int| 0 <= j < i ==> (#[trigger] self.topics@[j]).rebalanced(&old(self).topics@[j], d_lo, d_hi),
                forall|k: int| 0 <= k < changes@.len() ==> change_ok(#[trigger] changes@[k], old(self).topics@, self.topics@, i as int),
                forall|j: int, x: u64| 0 <= j < i && #[trigger] self.topics@[j].mesh_spec().contains(x)
                    && !old(self).topics@[j].mesh_spec().contains(x) ==> reported(changes@, x, old(self).topics@[j].topic_spec(), true),
                forall|j: int, x: u64| 0 <= j < i && #[trigger] old(self).topics@[j].mesh_spec().contains(x)
                    && !self.topics@[j].mesh_spec().contains(x) ==> reported(changes@, x, old(self).topics@[j].topic_spec(), false),
            decreases self.topics@.len() - i,
        {
            let ghost before_topics = self.topics@;
            let ghost before_changes = changes@;
            let mut t = self.topics.remove(i);
            let ghost t0 = t;
            let (grafted, pruned) = t.rebalance(d_lo, d_hi, seed);
            proof {
                t.lemma_wf();
                assert forall|k: int| 0 <= k < grafted@.len() implies #[trigger] t.mesh_spec().contains(grafted@[k])
                    && !t0.mesh_spec().contains(grafted@[k]) by {
                    let n = t0.mesh_spec().len() as int;
                    assert(t.mesh_spec()[n + k] == grafted@[k]);
                    if t0.mesh_spec().contains(grafted@[k]) {
                        let j = choose|j: int| 0 <= j < n && t0.mesh_spec()[j] == grafted@[k];
                        assert(t.mesh_spec()[j] == t0.mesh_spec()[j]);
                    }
                }
                assert forall|k: int| 0 <= k < pruned@.len() implies t0.mesh_spec().contains(#[trigger] pruned@[k])
                    && !t.mesh_spec().contains(pruned@[k]) by {
                    assert(pruned@.contains(pruned@[k]));
                }
            }
            let ghost mid = changes@;
            push_changes(&mut changes, &grafted, t.topic(), true);
            let ghost mid2 = changes@;
            push_changes(&mut changes, &pruned, t.topic(), false);
            self.topics.insert(i, t);
            proof {
                assert(self.topics@[i as int] == t);
                assert(old(self).topics@[i as int] == t0);
                assert forall|k: int| 0 <= k < changes@.len() implies change_ok(#[trigger] changes@[k], old(self).topics@, self.topics@, i + 1) by {
                    if k < before_changes.len() {
                        assert(changes@[k] == mid2[k]);
                        assert(mid2[k] == mid[k]);
                        assert(change_ok(before_changes[k], old(self).topics@, before_topics, i as int));
                        let j = choose|j: int| 0 <= j < i && j < before_topics.len() && j < old(self).topics@.len()
                            && (#[trigger] before_topics[j]).topic_spec() == before_changes[k].topic@ && if before_changes[k].graft {
                            before_topics[j].mesh_spec().contains(before_changes[k].peer) && !old(self).topics@[j].mesh_spec().contains(before_changes[k].peer)
                        } else {
                            old(self).topics@[j].mesh_spec().contains(before_changes[k].peer) && !before_topics[j].mesh_spec().contains(before_changes[k].peer)
                        };
                        assert(self.topics@[j] == before_topics[j]);
                    } else if k < mid2.len() {
                        assert(changes@[k] == mid2[k]);
                        let g = k - before_changes.len();
                        assert(mid == before_changes);
                        let c = mid2[mid.len() + g];
                        assert(c.peer == grafted@[g] && c.topic@ == t.topic_spec() && c.graft);
                        assert(mid2[k] == c);
                        assert(t.mesh_spec().contains(grafted@[g]));
                        assert(self.topics@[i as int].topic_spec() == changes@[k].topic@);
                    } else {
                        let g = k - mid2.len();
                        let c = changes@[mid2.len() + g];
                        assert(c.peer == pruned@[g] && c.topic@ == t.topic_spec() && !c.graft);
                        assert(changes@[k] == c);
                        assert(t0.mesh_spec().contains(pruned@[g]));
                        assert(self.topics@[i as int].topic_spec() == changes@[k].topic@);
                    }
                }
                assert forall|j: int, x: u64| 0 <= j < i + 1 && #[trigger] self.topics@[j].mesh_spec().contains(x)
                    && !old(self).topics@[j].mesh_spec().contains(x) implies reported(changes@, x, old(self).topics@[j].topic_spec(), true) by {
                    if j < i {
                        assert(self.topics@[j] == before_topics[j]);
                        let k = choose|k: int| 0 <= k < before_changes.len() && (#[trigger] before_changes[k]).peer == x
                            && before_changes[k].topic@ == old(self).topics@[j].topic_spec() && before_changes[k].graft == true;
                        assert(changes@[k] == mid2[k] && mid2[k] == mid[k]);
                    } else {
                        assert(t.mesh_spec().contains(x) && !t0.mesh_spec().contains(x));
                        let n = t0.mesh_spec().len() as int;
                        let q = choose|q: int| 0 <= q < t.mesh_spec().len() && t.mesh_spec()[q] == x;
                        if t0.mesh_spec().len() > d_hi {
                            assert(t0.mesh_spec().contains(x));
                        }
                        assert(t0.mesh_spec().len() < d_lo);
                        assert(q >= n) by {
                            if q < n {
                                assert(t0.mesh_spec()[q] == x);
                            }
                        }
                        let g = q - n;
                        assert(grafted@[g] == x);
                        assert(mid == before_changes);
                        let c = mid2[mid.len() + g];
                        assert(c.peer == grafted@[g] && c.topic@ == t.topic_spec() && c.graft);
                        assert(changes@[mid.len() + g] == c);
                    }
                }
                assert forall|j: int, x: u64| 0 <= j < i + 1 && #[trigger] old(self).topics@[j].mesh_spec().contains(x)
                    && !self.topics@[j].mesh_spec().contains(x) implies reported(changes@, x, old(self).topics@[j].topic_spec(), false) by {
                    if j < i {
                        assert(self.topics@[j] == before_topics[j]);
                        let k = choose|k: int| 0 <= k < before_changes.len() && (#[trigger] before_changes[k]).peer == x
                            && before_changes[k].topic@ == old(self).topics@[j].topic_spec() && before_changes[k].graft == false;
                        assert(changes@[k] == mid2[k] && mid2[k] == mid[k]);
                    } else {
                        assert(t0.mesh_spec().contains(x) && !t.mesh_spec().contains(x));
                        if t0.mesh_spec().len() < d_lo {
                            assert(t.mesh_spec().contains(x));
                        }
                        assert(t0.mesh_spec().len() > d_hi);
                        assert(pruned@.contains(x));
                        let g = choose|g: int| 0 <= g < pruned@.len() && pruned@[g] == x;
                        let c = changes@[mid2.len() + g];
                        assert(c.peer == pruned@[g] && c.topic@ == t.topic_spec() && !c.graft);
                    }
                }
            }
            i = i + 1;
        }
        proof {
            assert forall|a: int, b: int|
                0 <= a < b < self.topics@.len() implies (#[trigger] self.topics@[a]).topic_spec()
                    != (#[trigger] self.topics@[b]).topic_spec() by {
                assert(old(self).topics@[a].topic_spec() != old(self).topics@[b].topic_spec());
            }
            assert forall|a: int, x: u64|
                0 <= a < self.topics@.len() && #[trigger] self.topics@[a].aware_spec().contains(x)
                implies self.directory.has_handle(x) by {
                assert(old(self).topics@[a].aware_spec().contains(x));
            }
            assert forall|a: int| 0 <= a < self.topics_spec().len()
                && (#[trigger] self.topics_spec()[a]).aware_spec().len() >= d_lo
                implies d_lo <= self.topics_spec()[a].mesh_spec().len() <= d_hi by {
                lemma_mesh_within_marks(&old(self).topics@[a], &self.topics@[a], d_lo, d_hi);
            }
        }
        changes
    }
}

/// Appends a change for each of `peers` on `topic`.
fn push_changes(out: &mut Vec<MeshChange>, peers: &Vec<u64>, topic: &Vec<u8>, graft: bool)
    ensures
        final(out)@.len() == old(out)@.len() + peers@.len(),
        forall|k: int| 0 <= k < old(out)@.len() ==> #[trigger] final(out)@[k] == old(out)@[k],
        forall|k: int|
            0 <= k < peers@.len() ==> {
                let c = #[trigger] final(out)@[old(out)@.len() + k];
                c.peer == peers@[k] && c.topic@ == topic@ && c.graft == graft
            },
{
    let mut i: usize = 0;
    while i < peers.len()
        invariant
            i <= peers@.len(),
            out@.len() == old(out)@.len() + i,
            forall|k: int| 0 <= k < old(out)@.len() ==> #[trigger] out@[k] == old(out)@[k],
            forall|k: int|
                0 <= k < i ==> {
                    let c = #[trigger] out@[old(out)@.len() + k];
                    c.peer == peers@[k] && c.topic@ == topic@ && c.graft == graft
                },
        decreases peers@.len() - i,
    {
        let t = topic.clone();
        assert(t@ =~= topic@);
        out.push(MeshChange { peer: peers[i], topic: t, graft });
        i = i + 1;
    }
}

/// A peer that is not live in the directory is in no mesh and aware of no topic:
/// once expired, a peer stays out of every mesh until discovery admits it again,
/// under a new handle.
pub proof fn lemma_gone_peer_in_no_mesh(node: &Node, h: u64)
    requires
        node.wf(),
        !node.directory_spec().has_handle(h),
    ensures
        forall|i: int| 0 <= i < node.topics_spec().len() ==> !(#[trigger] node.topics_spec()[i]).mesh_spec().contains(h)
            && !node.topics_spec()[i].aware_spec().contains(h),
{
    assert forall|i: int| 0 <= i < node.topics_spec().len() implies !(#[trigger] node.topics_spec()[i]).mesh_spec().contains(h)
        && !node.topics_spec()[i].aware_spec().contains(h) by {
        node.topics@[i].lemma_wf();
    }
}

/// A frame that a node publishes passes every check of a receiving node whose
/// payload cap admits it: it decodes to the same message, its signature verifies
/// and its content id matches. Such a node accepts it, delivering it when the id
/// is new to it.
pub proof fn lemma_published_frame_accepted(m: MessageView, max_payload: usize)
    requires
        m.valid(max_payload),
        authentic(m),
        id_matches(m),
    ensures
        parse(encode_spec(m), max_payload) == Some(m),
        authentic(frame_message(encode_spec(m), max_payload)),
        id_matches(frame_message(encode_spec(m), max_payload)),
{
    crate::message::lemma_round_trip(m, max_payload);
}

/// The node's handles of live peers all lie below the next handle to give.
pub proof fn lemma_live_handle_below_next(node: &Node, h: u64)
    requires
        node.wf(),
        node.directory_spec().has_handle(h),
    ensures
        h < node.directory_spec().next_handle_spec(),
{
    node.directory.lemma_handle_below_next(h);
}

/// A message delivered once is not delivered again while its content id is
/// within the window: the accepted frame's id counts as seen at every later
/// time inside the window, and a frame whose id counts as seen delivers nothing.
pub proof fn lemma_no_second_delivery(before: Node, after: Node, from: u64, b: Seq<u8>, now: u64, r: Received, later: u64)
    requires
        received(before, after, from, b, now, r),
        r.deliver is Some,
        live(now, later, before.seen_spec().window_spec()),
    ensures
        after.seen_spec().seen(frame_message(b, before.config_spec().max_payload).id, later),
{
    let id = frame_message(b, before.config_spec().max_payload).id;
    assert(after.seen_spec().seen(id, later) == (before.seen_spec().seen(id, later) || (id == id && live(now, later, before.seen_spec().window_spec()))));
}


/// Whether one of `topics` is `topic`.
pub open spec fn has_topic(topics: Seq<TopicMesh>, topic: Seq<u8>) -> bool {
    exists|i: int| 0 <= i < topics.len() && (#[trigger] topics[i]).topic_spec() == topic
}

/// The mesh of `topic` among `topics`; empty where none is `topic`.
pub open spec fn mesh_in(topics: Seq<TopicMesh>, topic: Seq<u8>) -> Seq<u64> {
    if has_topic(topics, topic) {
        let i = choose|i: int| 0 <= i < topics.len() && (#[trigger] topics[i]).topic_spec() == topic;
        topics[i].mesh_spec()
    } else {
        Seq::empty()
    }
}

/// `c` reports a real change to the mesh of one of the first `limit` topics:
/// a grafted peer that joined it, or a pruned peer that left it.
pub open spec fn change_ok(c: MeshChange, before: Seq<TopicMesh>, after: Seq<TopicMesh>, limit: int) -> bool {
    exists|i: int| 0 <= i < limit && i < after.len() && i < before.len()
        && (#[trigger] after[i]).topic_spec() == c.topic@ && if c.graft {
        after[i].mesh_spec().contains(c.peer) && !before[i].mesh_spec().contains(c.peer)
    } else {
        before[i].mesh_spec().contains(c.peer) && !after[i].mesh_spec().contains(c.peer)
    }
}

/// Some change of `cs` reports `x` as grafted (or pruned) on `topic`.
pub open spec fn reported(cs: Seq<MeshChange>, x: u64, topic: Seq<u8>, graft: bool) -> bool {
    exists|k: int| 0 <= k < cs.len() && (#[trigger] cs[k]).peer == x && cs[k].topic@ == topic && cs[k].graft == graft
}

/// `frame` is held in `cache` at `now` for one of `ids`.
pub open spec fn answers(ids: Seq<Vec<u8>>, cache: SeenCache, frame: Seq<u8>, now: u64) -> bool {
    exists|x: Seq<u8>| listed(ids, x) && #[trigger] cache.cached(x, frame, now)
}

/// The message a frame holds, where it parses.
pub open spec fn frame_message(b: Seq<u8>, max_payload: usize) -> MessageView {
    parse(b, max_payload).unwrap()
}

/// The content id a message carries is the digest of its sender, sequence
/// number and payload.
pub open spec fn id_matches(m: MessageView) -> bool {
    m.id == content_id_spec(m.sender, m.seq, m.payload)
}

/// `after` is `before` once `m` was published on `topic` at `now`, and `sends`
/// carry it to the topic's mesh.
pub open spec fn published(before: Node, after: Node, topic: Seq<u8>, payload: Seq<u8>, now: u64, m: MessageView, sends: Seq<Outbound>) -> bool {
    let sender = before.key_spec().peer_id_spec();
    let seq = before.next_seq_spec();
    &&& m.topic == topic
    &&& m.sender == sender
    &&& m.seq == seq
    &&& m.payload == payload
    &&& m.signature == ed25519_signature(before.key_spec().seed_spec(), signed_bytes(topic, sender, seq, payload))
    &&& m.id == content_id_spec(sender, seq, payload)
    &&& sends_to(sends, before.mesh_of(topic), None, encode_spec(m))
    &&& authentic(m)
    &&& id_matches(m)
    &&& after.next_seq_spec() == seq + 1
    &&& after.seen_spec().records(&before.seen_spec(), m.id, now)
    &&& forall|t: u64| live(now, t, before.seen_spec().window_spec()) ==> #[trigger] after.seen_spec().cached(m.id, encode_spec(m), t)
    &&& after.seen_spec().window_spec() == before.seen_spec().window_spec()
    &&& after.key_spec() == before.key_spec()
    &&& after.config_spec() == before.config_spec()
    &&& after.directory_spec() == before.directory_spec()
    &&& after.topics_spec() == before.topics_spec()
}

/// `after` and `r` are what an accepted frame `b` from `from` at `now` gives.
pub open spec fn received(before: Node, after: Node, from: u64, b: Seq<u8>, now: u64, r: Received) -> bool {
    let m = frame_message(b, before.config_spec().max_payload);
    &&& parse(b, before.config_spec().max_payload) is Some
    &&& authentic(m)
    &&& id_matches(m)
    &&& (r.deliver is Some <==> !before.seen_spec().seen(m.id, now))
    &&& r.deliver is Some ==> {
        &&& r.deliver.unwrap()@ == m
        &&& after.seen_spec().records(&before.seen_spec(), m.id, now)
        &&& forall|t: u64| live(now, t, before.seen_spec().window_spec()) ==> #[trigger] after.seen_spec().cached(m.id, b, t)
        &&& sends_to(r.forward@, before.mesh_of(m.topic), Some(from), b)
        &&& after.next_seq_spec() == before.next_seq_spec()
        &&& after.key_spec() == before.key_spec()
        &&& after.config_spec() == before.config_spec()
        &&& after.directory_spec() == before.directory_spec()
        &&& after.topics_spec() == before.topics_spec()
    }
    &&& r.deliver is None ==> after == before && r.forward@.len() == 0
}

/// One frame for each peer of `mesh` but `from`.
pub fn sends_for(mesh: &Vec<u64>, from: Option<u64>, frame: &Vec<u8>) -> (r: Vec<Outbound>)
    requires
        mesh@.no_duplicates(),
    ensures
        sends_to(r@, mesh@, from, frame@),
{
    let mut r: Vec<Outbound> = Vec::new();
    let mut i: usize = 0;
    while i < mesh.len()
        invariant
            i <= mesh@.len(),
            forall|k: int| 0 <= k < r@.len() ==> (#[trigger] r@[k]).frame@ == frame@,
            forall|x: u64| #[trigger] reaches(r@, x) <==> (mesh@.subrange(0, i as int).contains(x)
                && from != Some(x)),
            forall|j: int, k: int| 0 <= j < r@.len() && 0 <= k < r@.len() && j != k ==> (#[trigger] r@[j]).to != (#[trigger] r@[k]).to,
            mesh@.no_duplicates(),
        decreases mesh@.len() - i,
    {
        let x = mesh[i];
        let ghost pre = r@;
        let skip = match from {
            Some(f) => f == x,
            None => false,
        };
        if !skip {
            let f = frame.clone();
            assert(f@ =~= frame@);
            proof {
                assert(!mesh@.subrange(0, i as int).contains(x)) by {
                    if mesh@.subrange(0, i as int).contains(x) {
                        let q = choose|q: int| 0 <= q < i && mesh@.subrange(0, i as int)[q] == x;
                        assert(mesh@[q] == mesh@[i as int]);
                    }
                }
                assert forall|k: int| 0 <= k < pre.len() implies (#[trigger] pre[k]).to != x by {
                    assert(reaches(pre, pre[k].to));
                }
            }
            r.push(Outbound { to: x, frame: f });
            proof {
                assert forall|j: int, k: int| 0 <= j < r@.len() && 0 <= k < r@.len() && j != k implies (#[trigger] r@[j]).to != (#[trigger] r@[k]).to by {
                    if j < pre.len() && k < pre.len() {
                        assert(r@[j] == pre[j] && r@[k] == pre[k]);
                    } else if j < pre.len() {
                        assert(r@[j] == pre[j]);
                    } else if k < pre.len() {
                        assert(r@[k] == pre[k]);
                    }
                }
            }
        }
        proof {
            let s0 = mesh@.subrange(0, i as int);
            let s1 = mesh@.subrange(0, i + 1);
            assert(s1 =~= s0.push(x));
            assert forall|y: u64| #[trigger] reaches(r@, y) <==> (s1.contains(y) && from != Some(y)) by {
                if reaches(r@, y) {
                    let k = choose|k: int| 0 <= k < r@.len() && (#[trigger] r@[k]).to == y;
                    if k < pre.len() {
                        assert(pre[k] == r@[k]);
                        assert(reaches(pre, y));
                        assert(s0.contains(y));
                        let q = choose|q: int| 0 <= q < s0.len() && s0[q] == y;
                        assert(s1[q] == y);
                    } else {
                        assert(s1[i as int] == y);
                    }
                }
                if s1.contains(y) && from != Some(y) {
                    let q = choose|q: int| 0 <= q < s1.len() && s1[q] == y;
                    if q < i {
                        assert(s0[q] == y);
                        assert(s0.contains(y));
                        assert(reaches(pre, y));
                        let k = choose|k: int| 0 <= k < pre.len() && (#[trigger] pre[k]).to == y;
                        assert(r@[k] == pre[k]);
                    } else {
                        assert(r@[pre.len() as int].to == y);
                    }
                }
            }
        }
        i = i + 1;
    }
    assert(mesh@.subrange(0, mesh@.len() as int) =~= mesh@);
    r
}

} // verus!
