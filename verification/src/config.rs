//! Node configuration: the peer set, the node's own id, and validation of
//! the raw values the environment supplies.

use vstd::prelude::*;

verus! {

/// A remote participant: its id and base URL.
#[derive(Debug)]
pub struct Peer {
    pub id: u8,
    pub url: String,
}

impl Clone for Peer {
    /// An exact copy of the peer.
    fn clone(&self) -> (res: Self)
        ensures
            res.id == self.id,
            res.url@ == self.url@,
    {
        Peer { id: self.id, url: self.url.clone() }
    }
}

impl Peer {
    /// A peer from its parts.
    pub fn new(id: u8, url: String) -> (res: Peer)
        ensures
            res.id == id,
            res.url@ == url@,
    {
        Peer { id, url }
    }
}

/// Logging verbosity, lowest to highest severity.
#[derive(Clone, Copy, PartialEq, Eq, Structural, Debug)]
pub enum LogLevel {
    Trace,
    Debug,
    Info,
    Warn,
    Error,
}

/// The node's configuration.
pub struct Config {
    pub port: u16,
    pub log_level: LogLevel,
    pub server_peer_id: u8,
    pub peers: Vec<Peer>,
}

/// Why configuration values are rejected.
#[derive(Clone, Copy, PartialEq, Eq, Structural, Debug)]
pub enum ConfigError {
    /// The peer list is empty.
    NoPeers,
    /// Two peers share an id.
    DuplicatePeerId,
    /// The URL and id lists have different lengths.
    LengthMismatch,
    /// A peer id could not be parsed.
    BadPeerId,
}

/// All ids pairwise different.
pub open spec fn ids_distinct(ids: Seq<u8>) -> bool {
    forall|i: int, j: int| 0 <= i < j < ids.len() ==> ids[i] != ids[j]
}

/// Pairs URLs with ids into the peer list, after validating that the
/// lists are nonempty, of equal length, and that the ids are unique.
pub fn build_peers(urls: Vec<String>, ids: Vec<u8>) -> (res: Result<Vec<Peer>, ConfigError>)
    ensures
        urls@.len() == 0 ==> res == Result::<Vec<Peer>, ConfigError>::Err(ConfigError::NoPeers),
        urls@.len() > 0 && urls@.len() != ids@.len() ==> res == Result::<
            Vec<Peer>,
            ConfigError,
        >::Err(ConfigError::LengthMismatch),
        urls@.len() > 0 && urls@.len() == ids@.len() && !ids_distinct(ids@) ==> res
            == Result::<Vec<Peer>, ConfigError>::Err(ConfigError::DuplicatePeerId),
        res is Ok <==> (urls@.len() > 0 && urls@.len() == ids@.len() && ids_distinct(ids@)),
        res matches Ok(peers) ==> {
            &&& peers@.len() == urls@.len()
            &&& forall|k: int|
                0 <= k < peers@.len() ==> (#[trigger] peers@[k]).id == ids@[k]
                    && peers@[k].url@ == urls@[k]@
        },
{
    if urls.len() == 0 {
        return Err(ConfigError::NoPeers);
    }
    if urls.len() != ids.len() {
        return Err(ConfigError::LengthMismatch);
    }
    // check id uniqueness
    let n = ids.len();
    let mut i: usize = 0;
    while i < n
        invariant
            n == ids@.len(),
            n == urls@.len(),
            n > 0,
            i <= n,
            forall|a: int, b: int| 0 <= a < b < ids@.len() && a < i ==> ids@[a] != ids@[b],
        decreases n - i,
    {
        let mut j: usize = i + 1;
        while j < n
            invariant
                n == ids@.len(),
                n == urls@.len(),
                n > 0,
                i < n,
                i < j <= n,
                forall|b: int| i < b < j ==> ids@[i as int] != ids@[b],
            decreases n - j,
        {
            if ids[i] == ids[j] {
                proof {
                    assert(ids@[i as int] == ids@[j as int]);
                }
                return Err(ConfigError::DuplicatePeerId);
            }
            j = j + 1;
        }
        i = i + 1;
    }
    let mut peers: Vec<Peer> = Vec::new();
    let mut k: usize = 0;
    while k < n
        invariant
            n == ids@.len(),
            n == urls@.len(),
            k <= n,
            peers@.len() == k,
            forall|m: int|
                0 <= m < k ==> (#[trigger] peers@[m]).id == ids@[m] && peers@[m].url@
                    == urls@[m]@,
        decreases n - k,
    {
        let url = urls[k].clone();
        peers.push(Peer { id: ids[k], url });
        k = k + 1;
    }
    Ok(peers)
}

} // verus!
