//! Notifications between peers that do not carry protocol data: a new
//! process was started, or progress should be pulled.

use vstd::prelude::*;

verus! {

/// A control notification addressed to a peer.
#[derive(Clone, Copy, PartialEq, Eq, Structural, Debug)]
pub enum PeerMessage {
    NewProcess { peer_id: u8, process_id: u128 },
    NotifyProcessProgress { peer_id: u8 },
}

impl PeerMessage {
    /// A new-process notification.
    pub fn new_process(peer_id: u8, process_id: u128) -> (res: PeerMessage)
        ensures
            res == (PeerMessage::NewProcess { peer_id, process_id }),
    {
        PeerMessage::NewProcess { peer_id, process_id }
    }

    /// A pull-progress notification.
    pub fn notify_process_progress(peer_id: u8) -> (res: PeerMessage)
        ensures
            res == (PeerMessage::NotifyProcessProgress { peer_id }),
    {
        PeerMessage::NotifyProcessProgress { peer_id }
    }

    /// The peer the message is addressed to.
    pub fn peer_id(&self) -> (res: u8)
        ensures
            res == (match *self {
                PeerMessage::NewProcess { peer_id, .. } => peer_id,
                PeerMessage::NotifyProcessProgress { peer_id } => peer_id,
            }),
    {
        match *self {
            PeerMessage::NewProcess { peer_id, .. } => peer_id,
            PeerMessage::NotifyProcessProgress { peer_id } => peer_id,
        }
    }
}

} // verus!
