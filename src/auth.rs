//! The local identity, message signing and signature checks.
use vstd::prelude::*;
use crate::crypto::{
    ed25519_accepts, ed25519_public_of, ed25519_signature, public_of_seed, random_seed,
    sha256, sha256_of, sign_with_seed, verify_signature,
};
use crate::message::{GossipError, Message, MessageView};
use crate::wire::{field, lemma_read_field, push_field, push_u64, u64_bytes};

verus! {

/// The bytes a signature covers: topic, sender, sequence number, payload.
pub open spec fn signed_bytes(topic: Seq<u8>, sender: Seq<u8>, seq: u64, payload: Seq<u8>) -> Seq<
    u8,
> {
    field(topic) + field(sender) + u64_bytes(seq) + field(payload)
}

/// The bytes a content id hashes: sender, sequence number, payload.
pub open spec fn id_bytes(sender: Seq<u8>, seq: u64, payload: Seq<u8>) -> Seq<u8> {
    field(sender) + u64_bytes(seq) + field(payload)
}

/// The content id of a message from `sender` with `seq` and `payload`.
pub open spec fn content_id_spec(sender: Seq<u8>, seq: u64, payload: Seq<u8>) -> Seq<u8> {
    sha256_of(id_bytes(sender, seq, payload))
}

/// Whether the signature of `m` verifies against its declared sender.
pub open spec fn authentic(m: MessageView) -> bool {
    ed25519_accepts(m.sender, signed_bytes(m.topic, m.sender, m.seq, m.payload), m.signature)
}

/// The process's signing identity.
pub struct LocalKey {
    seed: Vec<u8>,
    public: Vec<u8>,
}

impl LocalKey {
    /// The 32-byte secret and the public key that belongs to it.
    pub closed spec fn wf(&self) -> bool {
        self.seed@.len() == 32 && self.public@ == ed25519_public_of(self.seed@) && self.public@.len()
            == 32
    }

    /// The secret.
    pub closed spec fn seed_spec(&self) -> Seq<u8> {
        self.seed@
    }

    /// The local peer id: the public key.
    pub open spec fn peer_id_spec(&self) -> Seq<u8> {
        ed25519_public_of(self.seed_spec())
    }

    /// A fresh random identity.
    pub fn generate() -> (r: LocalKey)
        ensures
            r.wf(),
    {
        let seed = random_seed();
        let public = public_of_seed(&seed);
        LocalKey { seed, public }
    }

    /// The identity with the given 32-byte secret; `None` for any other length.
    pub fn from_seed(seed: Vec<u8>) -> (r: Option<LocalKey>)
        ensures
            r is Some <==> seed@.len() == 32,
            r is Some ==> r.unwrap().wf() && r.unwrap().seed_spec() == seed@,
    {
        if seed.len() != 32 {
            return None;
        }
        let public = public_of_seed(&seed);
        Some(LocalKey { seed, public })
    }

    /// The local peer id.
    pub fn peer_id(&self) -> (r: Vec<u8>)
        requires
            self.wf(),
        ensures
            r@ == self.peer_id_spec(),
            r@.len() == 32,
    {
        self.public.clone()
    }

    /// Signs `msg` with the secret.
    pub fn sign(&self, msg: &Vec<u8>) -> (r: Vec<u8>)
        requires
            self.wf(),
        ensures
            r@ == ed25519_signature(self.seed_spec(), msg@),
            r@.len() == 64,
            ed25519_accepts(self.peer_id_spec(), msg@, r@),
    {
        sign_with_seed(&self.seed, msg)
    }
}

/// The bytes a signature covers.
pub fn signed_bytes_of(topic: &Vec<u8>, sender: &Vec<u8>, seq: u64, payload: &Vec<u8>) -> (r: Vec<u8>)
    requires
        topic@.len() <= u32::MAX,
        sender@.len() <= u32::MAX,
        payload@.len() <= u32::MAX,
    ensures
        r@ == signed_bytes(topic@, sender@, seq, payload@),
{
    let mut out: Vec<u8> = Vec::new();
    push_field(&mut out, topic);
    push_field(&mut out, sender);
    push_u64(&mut out, seq);
    push_field(&mut out, payload);
    assert(out@ =~= signed_bytes(topic@, sender@, seq, payload@));
    out
}

/// The content id: the SHA-256 digest of sender, sequence number and payload.
pub fn content_id(sender: &Vec<u8>, seq: u64, payload: &Vec<u8>) -> (r: Vec<u8>)
    requires
        sender@.len() <= u32::MAX,
        payload@.len() <= u32::MAX,
    ensures
        r@ == content_id_spec(sender@, seq, payload@),
        r@.len() == 32,
{
    let mut out: Vec<u8> = Vec::new();
    push_field(&mut out, sender);
    push_u64(&mut out, seq);
    push_field(&mut out, payload);
    assert(out@ =~= id_bytes(sender@, seq, payload@));
    sha256(&out)
}

/// Builds and signs the message that `key` publishes on `topic` with `seq`.
pub fn sign_message(key: &LocalKey, topic: &Vec<u8>, seq: u64, payload: &Vec<u8>) -> (r: Message)
    requires
        key.wf(),
        topic@.len() <= u32::MAX,
        payload@.len() <= u32::MAX,
    ensures
        r@.topic == topic@,
        r@.sender == key.peer_id_spec(),
        r@.seq == seq,
        r@.payload == payload@,
        r@.signature == ed25519_signature(
            key.seed_spec(),
            signed_bytes(topic@, key.peer_id_spec(), seq, payload@),
        ),
        r@.id == content_id_spec(key.peer_id_spec(), seq, payload@),
        r@.valid(u32::MAX as usize),
        authentic(r@),
{
    let sender = key.peer_id();
    let bytes = signed_bytes_of(topic, &sender, seq, payload);
    let signature = key.sign(&bytes);
    let id = content_id(&sender, seq, payload);
    Message { topic: topic.clone(), sender, seq, payload: payload.clone(), signature, id }
}

/// Checks the signature of `m` against its declared sender: `AuthenticationFailure`
/// exactly when it does not verify.
pub fn verify(m: &Message) -> (r: Result<(), GossipError>)
    requires
        m@.valid(u32::MAX as usize),
    ensures
        r is Ok <==> authentic(m@),
        r is Err ==> r == Err::<(), GossipError>(GossipError::AuthenticationFailure),
{
    let bytes = signed_bytes_of(&m.topic, &m.sender, m.seq, &m.payload);
    if verify_signature(&m.sender, &bytes, &m.signature) {
        Ok(())
    } else {
        Err(GossipError::AuthenticationFailure)
    }
}

/// A message whose payload was changed in transit asks the signature check about
/// other bytes than the ones its sender signed: any change to the payload, a
/// single flipped bit among them, changes the signed bytes.
pub proof fn lemma_tamper_changes_signed_bytes(m: MessageView, t: MessageView)
    requires
        m.valid(u32::MAX as usize),
        t.valid(u32::MAX as usize),
        t.topic == m.topic,
        t.sender == m.sender,
        t.seq == m.seq,
        t.payload != m.payload,
    ensures
        signed_bytes(t.topic, t.sender, t.seq, t.payload) != signed_bytes(
            m.topic,
            m.sender,
            m.seq,
            m.payload,
        ),
{
    let pre = field(m.topic) + field(m.sender) + u64_bytes(m.seq);
    let a = signed_bytes(m.topic, m.sender, m.seq, m.payload);
    let b = signed_bytes(t.topic, t.sender, t.seq, t.payload);
    if a == b {
        assert(a.subrange(pre.len() as int, a.len() as int) =~= field(m.payload));
        assert(b.subrange(pre.len() as int, b.len() as int) =~= field(t.payload));
        let e = Seq::<u8>::empty();
        assert(field(m.payload) + e =~= field(m.payload));
        assert(field(t.payload) + e =~= field(t.payload));
        lemma_read_field(m.payload, e);
        lemma_read_field(t.payload, e);
    }
}

} // verus!
