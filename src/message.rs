//! Messages and their wire encoding.
use vstd::prelude::*;
use crate::wire::{
    field, read_field, read_u64, u64_bytes, lemma_read_field, lemma_read_field_back,
    lemma_read_u64, lemma_read_u64_back, push_field, push_u64, take_field, take_u64,
};

verus! {

/// The largest payload accepted unless configured otherwise: 64 KiB.
pub const DEFAULT_MAX_PAYLOAD: usize = 65536;

/// A signed message on a topic.
pub struct Message {
    pub topic: Vec<u8>,
    /// The sender's peer id: its Ed25519 public key.
    pub sender: Vec<u8>,
    pub seq: u64,
    pub payload: Vec<u8>,
    pub signature: Vec<u8>,
    /// The content id, the key for duplicate suppression.
    pub id: Vec<u8>,
}

/// The mathematical value of a `Message`.
pub struct MessageView {
    pub topic: Seq<u8>,
    pub sender: Seq<u8>,
    pub seq: u64,
    pub payload: Seq<u8>,
    pub signature: Seq<u8>,
    pub id: Seq<u8>,
}

impl View for Message {
    type V = MessageView;

    open spec fn view(&self) -> MessageView {
        MessageView {
            topic: self.topic@,
            sender: self.sender@,
            seq: self.seq,
            payload: self.payload@,
            signature: self.signature@,
            id: self.id@,
        }
    }
}

impl MessageView {
    /// Every field fits a four-byte length and the payload is within `max_payload`.
    pub open spec fn valid(self, max_payload: usize) -> bool {
        &&& self.topic.len() <= u32::MAX
        &&& self.sender.len() <= u32::MAX
        &&& self.payload.len() <= max_payload
        &&& self.payload.len() <= u32::MAX
        &&& self.signature.len() <= u32::MAX
        &&& self.id.len() <= u32::MAX
    }
}

/// The wire form: topic, sender, sequence number, payload, signature, content id.
pub open spec fn encode_spec(m: MessageView) -> Seq<u8> {
    field(m.topic) + (field(m.sender) + (u64_bytes(m.seq) + (field(m.payload) + (field(
        m.signature,
    ) + field(m.id)))))
}

/// Reads a whole message from `b`, with nothing left over.
pub open spec fn parse(b: Seq<u8>, max_payload: usize) -> Option<MessageView> {
    match read_field(b) {
        None => None,
        Some((topic, r1)) => match read_field(r1) {
            None => None,
            Some((sender, r2)) => match read_u64(r2) {
                None => None,
                Some((seq, r3)) => match read_field(r3) {
                    None => None,
                    Some((payload, r4)) => match read_field(r4) {
                        None => None,
                        Some((signature, r5)) => match read_field(r5) {
                            None => None,
                            Some((id, r6)) => if r6.len() == 0 && payload.len() <= max_payload {
                                Some(MessageView { topic, sender, seq, payload, signature, id })
                            } else {
                                None
                            },
                        },
                    },
                },
            },
        },
    }
}

/// Decoding an encoded message gives back that message, for every valid message.
pub proof fn lemma_round_trip(m: MessageView, max_payload: usize)
    requires
        m.valid(max_payload),
    ensures
        parse(encode_spec(m), max_payload) == Some(m),
{
    let e = Seq::<u8>::empty();
    let r5 = field(m.id);
    let r4 = field(m.signature) + r5;
    let r3 = field(m.payload) + r4;
    let r2 = u64_bytes(m.seq) + r3;
    let r1 = field(m.sender) + r2;
    lemma_read_field(m.topic, r1);
    lemma_read_field(m.sender, r2);
    lemma_read_u64(m.seq, r3);
    lemma_read_field(m.payload, r4);
    lemma_read_field(m.signature, r5);
    lemma_read_field(m.id, e);
    assert(field(m.id) + e =~= field(m.id));
}

/// Whatever parses is the encoding of a valid message.
proof fn lemma_encode_parse(b: Seq<u8>, max_payload: usize)
    requires
        parse(b, max_payload) is Some,
    ensures
        encode_spec(parse(b, max_payload).unwrap()) == b,
        parse(b, max_payload).unwrap().valid(max_payload),
{
    let (topic, r1) = read_field(b).unwrap();
    let (sender, r2) = read_field(r1).unwrap();
    let (seq, r3) = read_u64(r2).unwrap();
    let (payload, r4) = read_field(r3).unwrap();
    let (signature, r5) = read_field(r4).unwrap();
    let (id, r6) = read_field(r5).unwrap();
    lemma_read_field_back(b);
    lemma_read_field_back(r1);
    lemma_read_u64_back(r2);
    lemma_read_field_back(r3);
    lemma_read_field_back(r4);
    lemma_read_field_back(r5);
    assert(r6 =~= Seq::<u8>::empty());
    assert(field(id) + r6 =~= field(id));
}

/// Why a frame was dropped or a request refused.
#[derive(Clone, Copy, Debug, PartialEq, Eq, Structural)]
pub enum GossipError {
    /// The bytes are not the encoding of a message within the payload cap.
    MalformedPayload,
    /// The signature does not verify against the declared sender.
    AuthenticationFailure,
    /// A send to one peer failed.
    PeerUnreachable,
    /// A local request was invalid: a bad topic or an oversized payload.
    ConfigurationError,
    /// The transport failed as a whole.
    TransportFatal,
}

impl Message {
    /// The wire form of this message.
    pub fn encode(&self) -> (r: Vec<u8>)
        requires
            self@.valid(u32::MAX as usize),
        ensures
            r@ == encode_spec(self@),
    {
        let mut out: Vec<u8> = Vec::new();
        push_field(&mut out, &self.topic);
        push_field(&mut out, &self.sender);
        push_u64(&mut out, self.seq);
        push_field(&mut out, &self.payload);
        push_field(&mut out, &self.signature);
        push_field(&mut out, &self.id);
        assert(out@ =~= encode_spec(self@));
        out
    }

    /// Reads a message from its wire form; fails with `MalformedPayload` exactly
    /// when `b` is the encoding of no message whose payload is within `max_payload`.
    pub fn decode(b: &Vec<u8>, max_payload: usize) -> (r: Result<Message, GossipError>)
        ensures
            r is Ok <==> parse(b@, max_payload) is Some,
            r is Ok ==> r.unwrap()@ == parse(b@, max_payload).unwrap(),
            r is Ok ==> encode_spec(r.unwrap()@) == b@ && r.unwrap()@.valid(max_payload),
            r is Err ==> r == Err::<Message, GossipError>(GossipError::MalformedPayload),
            r is Err ==> forall|m: MessageView| #[trigger] m.valid(max_payload) ==> encode_spec(m) != b@,
    {
        let r = Self::decode_fields(b, max_payload);
        proof {
            if r is Ok {
                lemma_encode_parse(b@, max_payload);
            } else {
                assert forall|m: MessageView| #[trigger] m.valid(max_payload) implies encode_spec(m) != b@ by {
                    if encode_spec(m) == b@ {
                        lemma_round_trip(m, max_payload);
                    }
                }
            }
        }
        r
    }

    fn decode_fields(b: &Vec<u8>, max_payload: usize) -> (r: Result<Message, GossipError>)
        ensures
            r is Ok <==> parse(b@, max_payload) is Some,
            r is Ok ==> r.unwrap()@ == parse(b@, max_payload).unwrap(),
            r is Err ==> r == Err::<Message, GossipError>(GossipError::MalformedPayload),
    {
        let bad = Err(GossipError::MalformedPayload);
        assert(b@.subrange(0, b@.len() as int) =~= b@);
        let (topic, at_sender) = match take_field(b, 0) { Some(x) => x, None => return bad };
        let (sender, at_seq) = match take_field(b, at_sender) { Some(x) => x, None => return bad };
        let (seq, at_payload) = match take_u64(b, at_seq) { Some(x) => x, None => return bad };
        let (payload, at_signature) = match take_field(b, at_payload) { Some(x) => x, None => return bad };
        let (signature, at_id) = match take_field(b, at_signature) { Some(x) => x, None => return bad };
        let (id, at_end) = match take_field(b, at_id) { Some(x) => x, None => return bad };
        if at_end != b.len() || payload.len() > max_payload {
            return bad;
        }
        Ok(Message { topic, sender, seq, payload, signature, id })
    }
}

} // verus!
