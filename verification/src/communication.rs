//! Peer-to-peer message shapes: payloads, addressed messages, and the
//! envelopes the outbox carries, together with the pure routing step that
//! turns messages into envelopes.

use vstd::prelude::*;

use crate::config::Peer;

verus! {

/// What one peer tells another about a process.
#[derive(Clone, Copy, PartialEq, Eq, Structural, Debug)]
pub enum PeerMessagePayload {
    /// A share of the sender's input for the receiving peer.
    Share { value: u64 },
    /// The sender's shares-sum.
    SharesSum { value: u64 },
    /// A new process was started; no data beyond the routing.
    NewProcess,
}

/// A message addressed to a peer by id.
pub struct PeerMessage {
    pub peer_id: u8,
    pub process_id: u128,
    pub payload: PeerMessagePayload,
}

impl PeerMessage {
    /// A share message for the given peer and process.
    pub fn new_share_message(peer_id: u8, process_id: u128, value: u64) -> (res: PeerMessage)
        ensures
            res.peer_id == peer_id,
            res.process_id == process_id,
            res.payload == (PeerMessagePayload::Share { value }),
    {
        PeerMessage { peer_id, process_id, payload: PeerMessagePayload::Share { value } }
    }

    /// A shares-sum message for the given peer and process.
    pub fn new_shares_sum_message(peer_id: u8, process_id: u128, value: u64) -> (res: PeerMessage)
        ensures
            res.peer_id == peer_id,
            res.process_id == process_id,
            res.payload == (PeerMessagePayload::SharesSum { value }),
    {
        PeerMessage { peer_id, process_id, payload: PeerMessagePayload::SharesSum { value } }
    }

    /// A new-process notification for the given peer.
    pub fn new_process(peer_id: u8, process_id: u128) -> (res: PeerMessage)
        ensures
            res.peer_id == peer_id,
            res.process_id == process_id,
            res.payload == PeerMessagePayload::NewProcess,
    {
        PeerMessage { peer_id, process_id, payload: PeerMessagePayload::NewProcess }
    }
}

/// One share message per entry of a process's outgoing share map.
pub fn share_messages(shares_to_send: &crate::idmap::IdMap, process_id: u128) -> (res: Vec<
    PeerMessage,
>)
    ensures
        res@.len() == shares_to_send@.len(),
        forall|k: int|
            0 <= k < res@.len() ==> {
                &&& (#[trigger] res@[k]).peer_id == shares_to_send@[k].0
                &&& res@[k].process_id == process_id
                &&& res@[k].payload == (PeerMessagePayload::Share {
                    value: shares_to_send@[k].1,
                })
            },
{
    let mut res: Vec<PeerMessage> = Vec::new();
    let mut i: usize = 0;
    let n = shares_to_send.len_entries();
    while i < n
        invariant
            i <= n,
            n == shares_to_send@.len(),
            res@.len() == i,
            forall|k: int|
                0 <= k < i ==> {
                    &&& (#[trigger] res@[k]).peer_id == shares_to_send@[k].0
                    &&& res@[k].process_id == process_id
                    &&& res@[k].payload == (PeerMessagePayload::Share {
                        value: shares_to_send@[k].1,
                    })
                },
        decreases n - i,
    {
        let e = shares_to_send.entry_at(i);
        res.push(PeerMessage::new_share_message(e.0, process_id, e.1));
        i = i + 1;
    }
    res
}

/// One shares-sum message per configured peer.
pub fn shares_sum_messages(peers: &Vec<Peer>, process_id: u128, value: u64) -> (res: Vec<
    PeerMessage,
>)
    ensures
        res@.len() == peers@.len(),
        forall|k: int|
            0 <= k < res@.len() ==> {
                &&& (#[trigger] res@[k]).peer_id == peers@[k].id
                &&& res@[k].process_id == process_id
                &&& res@[k].payload == (PeerMessagePayload::SharesSum { value })
            },
{
    let mut res: Vec<PeerMessage> = Vec::new();
    let mut i: usize = 0;
    let n = peers.len();
    while i < n
        invariant
            i <= n,
            n == peers@.len(),
            res@.len() == i,
            forall|k: int|
                0 <= k < i ==> {
                    &&& (#[trigger] res@[k]).peer_id == peers@[k].id
                    &&& res@[k].process_id == process_id
                    &&& res@[k].payload == (PeerMessagePayload::SharesSum { value })
                },
        decreases n - i,
    {
        res.push(PeerMessage::new_shares_sum_message(peers[i].id, process_id, value));
        i = i + 1;
    }
    res
}

/// A message with its destination resolved to a URL.
pub struct PeerEnvelope {
    pub peer_id: u8,
    pub peer_url: String,
    pub process_id: u128,
    pub payload: PeerMessagePayload,
}

impl Clone for PeerEnvelope {
    /// An exact copy of the envelope.
    fn clone(&self) -> (res: Self)
        ensures
            res.peer_id == self.peer_id,
            res.peer_url@ == self.peer_url@,
            res.process_id == self.process_id,
            res.payload == self.payload,
    {
        PeerEnvelope {
            peer_id: self.peer_id,
            peer_url: self.peer_url.clone(),
            process_id: self.process_id,
            payload: self.payload,
        }
    }
}

/// Why a message cannot be routed.
#[derive(Clone, Copy, PartialEq, Eq, Structural, Debug)]
pub enum PeerRoutingError {
    /// No configured peer has this id.
    PeerNotFound(u8),
    /// The message is addressed to this node itself.
    OwnPeerId(u8),
}

/// The id of some configured peer.
pub open spec fn known_peer(peers: Seq<Peer>, id: u8) -> bool {
    exists|i: int| 0 <= i < peers.len() && (#[trigger] peers[i]).id == id
}

/// Resolves one message to an envelope: refuses the node's own id and
/// unknown peers, otherwise attaches the peer's URL.
pub fn build_envelope(message: PeerMessage, server_peer_id: u8, peers: &Vec<Peer>) -> (res:
    Result<PeerEnvelope, PeerRoutingError>)
    ensures
        message.peer_id == server_peer_id ==> res == Result::<
            PeerEnvelope,
            PeerRoutingError,
        >::Err(PeerRoutingError::OwnPeerId(message.peer_id)),
        message.peer_id != server_peer_id && !known_peer(peers@, message.peer_id) ==> res
            == Result::<PeerEnvelope, PeerRoutingError>::Err(
            PeerRoutingError::PeerNotFound(message.peer_id),
        ),
        res is Ok <==> (message.peer_id != server_peer_id && known_peer(peers@, message.peer_id)),
        res matches Ok(e) ==> {
            &&& e.peer_id == message.peer_id
            &&& e.process_id == message.process_id
            &&& e.payload == message.payload
            &&& exists|i: int|
                0 <= i < peers@.len() && (#[trigger] peers@[i]).id == message.peer_id
                    && e.peer_url@ == peers@[i].url@
        },
{
    if message.peer_id == server_peer_id {
        return Err(PeerRoutingError::OwnPeerId(message.peer_id));
    }
    let mut i: usize = 0;
    while i < peers.len()
        invariant
            message.peer_id != server_peer_id,
            i <= peers@.len(),
            forall|j: int| 0 <= j < i ==> (#[trigger] peers@[j]).id != message.peer_id,
        decreases peers@.len() - i,
    {
        if peers[i].id == message.peer_id {
            let url = peers[i].url.clone();
            proof {
                assert((peers@[i as int]).id == message.peer_id);
            }
            return Ok(
                PeerEnvelope {
                    peer_id: message.peer_id,
                    peer_url: url,
                    process_id: message.process_id,
                    payload: message.payload,
                },
            );
        }
        i = i + 1;
    }
    Err(PeerRoutingError::PeerNotFound(message.peer_id))
}

/// Resolves a batch of messages; the first failure wins, as when sending
/// one by one.
pub fn build_envelopes(messages: Vec<PeerMessage>, server_peer_id: u8, peers: &Vec<Peer>) -> (res:
    Result<Vec<PeerEnvelope>, PeerRoutingError>)
    ensures
        res is Ok <==> (forall|k: int|
            0 <= k < messages@.len() ==> (#[trigger] messages@[k]).peer_id != server_peer_id
                && known_peer(peers@, messages@[k].peer_id)),
        res matches Ok(out) ==> {
            &&& out@.len() == messages@.len()
            &&& forall|k: int|
                0 <= k < out@.len() ==> {
                    &&& (#[trigger] out@[k]).peer_id == messages@[k].peer_id
                    &&& out@[k].process_id == messages@[k].process_id
                    &&& out@[k].payload == messages@[k].payload
                    &&& messages@[k].peer_id != server_peer_id
                    &&& known_peer(peers@, messages@[k].peer_id)
                }
        },
        res is Err ==> exists|k: int|
            0 <= k < messages@.len() && ((#[trigger] messages@[k]).peer_id == server_peer_id
                || !known_peer(peers@, messages@[k].peer_id)),
{
    let mut out: Vec<PeerEnvelope> = Vec::new();
    let mut i: usize = 0;
    while i < messages.len()
        invariant
            i <= messages@.len(),
            out@.len() == i,
            forall|k: int|
                0 <= k < i ==> {
                    &&& (#[trigger] out@[k]).peer_id == messages@[k].peer_id
                    &&& out@[k].process_id == messages@[k].process_id
                    &&& out@[k].payload == messages@[k].payload
                    &&& messages@[k].peer_id != server_peer_id
                    &&& known_peer(peers@, messages@[k].peer_id)
                },
        decreases messages@.len() - i,
    {
        let m = PeerMessage {
            peer_id: messages[i].peer_id,
            process_id: messages[i].process_id,
            payload: messages[i].payload,
        };
        let env = match build_envelope(m, server_peer_id, peers) {
            Ok(e) => e,
            Err(e) => {
                proof {
                    assert((messages@[i as int]).peer_id == server_peer_id || !known_peer(
                        peers@,
                        messages@[i as int].peer_id,
                    ));
                }
                return Err(e);
            },
        };
        out.push(env);
        i = i + 1;
    }
    proof {
        assert forall|k: int| 0 <= k < messages@.len() implies (
        #[trigger] messages@[k]).peer_id != server_peer_id && known_peer(
            peers@,
            messages@[k].peer_id,
        ) by {
            assert((out@[k]).peer_id == messages@[k].peer_id);
        }
    }
    Ok(out)
}

} // verus!
