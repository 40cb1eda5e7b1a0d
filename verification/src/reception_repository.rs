//! The in-memory store behind push-side reception: processes keyed by id,
//! mutated one share or shares-sum at a time.

use vstd::prelude::*;

use crate::idmap::IdMap;
use crate::reception::{
    InitializeProcessRequest, ReceiveLastPeerShareRequest, ReceiveLastPeerSharesSumRequest,
    ReceivePeerShareRequest, ReceivePeerSharesSumRequest, ReceptionProcess,
    ReceptionProcessState,
};

verus! {

/// Errors of the reception store.
#[derive(Clone, Copy, PartialEq, Eq, Structural, Debug)]
pub enum ReceptionRepositoryError {
    /// No process with the given id.
    NotFound,
    /// This peer already delivered this contribution.
    AlreadyReceived(u8),
    /// The process is not in the state the request expects.
    WrongState,
}

/// Some stored process has this id.
pub open spec fn has_rid(s: Seq<ReceptionProcess>, id: u128) -> bool {
    exists|i: int| 0 <= i < s.len() && (#[trigger] s[i]).id == id
}

/// Some stored process has this id and already holds a share from `from`.
pub open spec fn share_recorded_at(s: Seq<ReceptionProcess>, id: u128, from: u8) -> bool {
    exists|i: int|
        0 <= i < s.len() && (#[trigger] s[i]).id == id
            && s[i].received_shares.as_map().contains_key(from)
}

/// Some stored process has this id and already holds a shares-sum from `from`.
pub open spec fn sum_recorded_at(s: Seq<ReceptionProcess>, id: u128, from: u8) -> bool {
    exists|i: int|
        0 <= i < s.len() && (#[trigger] s[i]).id == id
            && s[i].received_shares_sums.as_map().contains_key(from)
}

/// Some stored process has this id and awaits peer shares.
pub open spec fn rawaiting_shares_at(s: Seq<ReceptionProcess>, id: u128) -> bool {
    exists|i: int|
        0 <= i < s.len() && (#[trigger] s[i]).id == id && s[i].state is AwaitingPeerShares
}

/// Some stored process has this id and awaits peer shares-sums.
pub open spec fn rawaiting_sums_at(s: Seq<ReceptionProcess>, id: u128) -> bool {
    exists|i: int|
        0 <= i < s.len() && (#[trigger] s[i]).id == id && s[i].state is AwaitingPeerSharesSum
}

/// Two processes hold the same data.
pub open spec fn same_rprocess(a: ReceptionProcess, b: ReceptionProcess) -> bool {
    &&& a.id == b.id
    &&& a.input == b.input
    &&& a.own_share == b.own_share
    &&& a.shares_to_send@ == b.shares_to_send@
    &&& a.received_shares@ == b.received_shares@
    &&& a.received_shares_sums@ == b.received_shares_sums@
    &&& a.state == b.state
}

/// In-memory reception store with unique ids.
pub struct InMemoryAdditionRepository {
    processes: Vec<ReceptionProcess>,
    server_peer_id: u8,
    peer_ids: Vec<u8>,
}

impl View for InMemoryAdditionRepository {
    type V = Seq<ReceptionProcess>;

    closed spec fn view(&self) -> Seq<ReceptionProcess> {
        self.processes@
    }
}

impl InMemoryAdditionRepository {
    /// Well-formed: ids unique, every process well-formed.
    pub open spec fn wf(&self) -> bool {
        &&& (forall|i: int, j: int|
            0 <= i < j < self@.len() ==> (#[trigger] self@[i]).id != (#[trigger] self@[j]).id)
        &&& (forall|i: int| 0 <= i < self@.len() ==> (#[trigger] self@[i]).wf())
    }

    /// The configured peer ids.
    pub closed spec fn spec_peer_ids(&self) -> Seq<u8> {
        self.peer_ids@
    }

    /// The node's own peer id.
    pub closed spec fn spec_server_peer_id(&self) -> u8 {
        self.server_peer_id
    }

    /// An empty store for the given peer set.
    pub fn new(peer_ids: Vec<u8>, server_peer_id: u8) -> (res: InMemoryAdditionRepository)
        ensures
            res.wf(),
            res@ == Seq::<ReceptionProcess>::empty(),
            res.spec_peer_ids() == peer_ids@,
            res.spec_server_peer_id() == server_peer_id,
    {
        InMemoryAdditionRepository { processes: Vec::new(), server_peer_id, peer_ids }
    }

    /// All participant ids: the peers and the node itself.
    pub fn all_ids(&self) -> (res: Vec<u8>)
        ensures
            res@ == self.spec_peer_ids().push(self.spec_server_peer_id()),
    {
        let mut ids: Vec<u8> = Vec::new();
        let mut i: usize = 0;
        while i < self.peer_ids.len()
            invariant
                i <= self.peer_ids@.len(),
                ids@ == self.peer_ids@.take(i as int),
            decreases self.peer_ids@.len() - i,
        {
            ids.push(self.peer_ids[i]);
            proof {
                assert(ids@ =~= self.peer_ids@.take(i + 1));
            }
            i = i + 1;
        }
        ids.push(self.server_peer_id);
        proof {
            assert(ids@ =~= self.peer_ids@.push(self.server_peer_id));
        }
        ids
    }

    /// Looks a process up by id, returning a copy.
    pub fn get_process(&self, process_id: u128) -> (res: Result<
        ReceptionProcess,
        ReceptionRepositoryError,
    >)
        requires
            self.wf(),
        ensures
            res is Ok <==> has_rid(self@, process_id),
            res matches Ok(p) ==> exists|i: int|
                0 <= i < self@.len() && (#[trigger] self@[i]).id == process_id && same_rprocess(
                    p,
                    self@[i],
                ),
    {
        let mut i: usize = 0;
        while i < self.processes.len()
            invariant
                self.wf(),
                i <= self@.len(),
                forall|j: int| 0 <= j < i ==> (#[trigger] self@[j]).id != process_id,
            decreases self@.len() - i,
        {
            if self.processes[i].id == process_id {
                let p = self.processes[i].clone();
                proof {
                    assert((self@[i as int]).id == process_id);
                    assert(same_rprocess(p, self@[i as int]));
                }
                return Ok(p);
            }
            i = i + 1;
        }
        Err(ReceptionRepositoryError::NotFound)
    }

    /// Inserts a process, replacing any existing one with the same id.
    fn upsert(&mut self, process: ReceptionProcess) -> (res: ReceptionProcess)
        requires
            old(self).wf(),
            process.wf(),
        ensures
            final(self).wf(),
            has_rid(final(self)@, process.id),
            exists|i: int|
                0 <= i < final(self)@.len() && same_rprocess(#[trigger] final(self)@[i], process),
            same_rprocess(res, process),
            forall|j: int|
                0 <= j < final(self)@.len() ==> (#[trigger] final(self)@[j]).id == process.id
                    || exists|k: int|
                    0 <= k < old(self)@.len() && final(self)@[j] == old(self)@[k],
    {
        let copy = process.clone();
        let ghost pr = process;
        let mut i: usize = 0;
        let n = self.processes.len();
        while i < n
            invariant
                self.wf(),
                self@ == old(self)@,
                n == self@.len(),
                i <= n,
                forall|j: int| 0 <= j < i ==> (#[trigger] self@[j]).id != pr.id,
                same_rprocess(copy, pr),
                same_rprocess(process, pr),
                pr.wf(),
            decreases n - i,
        {
            if self.processes[i].id == process.id {
                let ghost pre = self@;
                self.processes.set(i, process);
                proof {
                    assert(same_rprocess(self@[i as int], pr));
                    assert forall|j: int|
                        0 <= j < self@.len() implies (#[trigger] self@[j]).id == pr.id || exists|
                        k: int,
                    | 0 <= k < pre.len() && self@[j] == pre[k] by {
                        if j != i {
                            assert(self@[j] == pre[j]);
                        }
                    }
                }
                return copy;
            }
            i = i + 1;
        }
        let ghost pre = self@;
        self.processes.push(process);
        proof {
            assert(same_rprocess(self@[self@.len() - 1], pr));
            assert forall|j: int|
                0 <= j < self@.len() implies (#[trigger] self@[j]).id == pr.id || exists|k: int|
                0 <= k < pre.len() && self@[j] == pre[k] by {
                if j < pre.len() {
                    assert(self@[j] == pre[j]);
                }
            }
        }
        copy
    }

    /// Creates a process in the awaiting-shares state; an existing process
    /// with the same id is replaced.
    pub fn create_process(&mut self, request: crate::process::CreateProcessRequest) -> (res:
        ReceptionProcess)
        requires
            old(self).wf(),
            request.shares_to_send.wf(),
        ensures
            final(self).wf(),
            res.id == request.process_id,
            res.input == request.input,
            res.own_share == request.own_share,
            res.shares_to_send@ == request.shares_to_send@,
            res.received_shares@ == Seq::<(u8, u64)>::empty(),
            res.received_shares_sums@ == Seq::<(u8, u64)>::empty(),
            res.state == ReceptionProcessState::AwaitingPeerShares,
            exists|i: int|
                0 <= i < final(self)@.len() && same_rprocess(#[trigger] final(self)@[i], res),
    {
        let process = ReceptionProcess {
            id: request.process_id,
            input: request.input,
            own_share: request.own_share,
            shares_to_send: request.shares_to_send,
            received_shares: IdMap::new(),
            received_shares_sums: IdMap::new(),
            state: ReceptionProcessState::AwaitingPeerShares,
        };
        self.upsert(process)
    }

    /// Records the first share of a process this node had not seen.
    pub fn receive_new_process_share(&mut self, request: InitializeProcessRequest) -> (res:
        ReceptionProcess)
        requires
            old(self).wf(),
            request.shares_to_send.wf(),
        ensures
            final(self).wf(),
            res.id == request.process_id,
            res.input == request.input,
            res.own_share == request.own_share,
            res.shares_to_send@ == request.shares_to_send@,
            res.received_shares.as_map() == Map::<u8, u64>::empty().insert(
                request.from_peer_id,
                request.received_value,
            ),
            res.received_shares_sums@ == Seq::<(u8, u64)>::empty(),
            res.state == ReceptionProcessState::AwaitingPeerShares,
            exists|i: int|
                0 <= i < final(self)@.len() && same_rprocess(#[trigger] final(self)@[i], res),
    {
        let mut received_shares = IdMap::new();
        received_shares.insert(request.from_peer_id, request.received_value);
        let process = ReceptionProcess {
            id: request.process_id,
            input: request.input,
            own_share: request.own_share,
            shares_to_send: request.shares_to_send,
            received_shares,
            received_shares_sums: IdMap::new(),
            state: ReceptionProcessState::AwaitingPeerShares,
        };
        self.upsert(process)
    }

    /// Records the first shares-sum of a process this node had not seen.
    pub fn receive_new_process_shares_sum(&mut self, request: InitializeProcessRequest) -> (res:
        ReceptionProcess)
        requires
            old(self).wf(),
            request.shares_to_send.wf(),
        ensures
            final(self).wf(),
            res.id == request.process_id,
            res.input == request.input,
            res.own_share == request.own_share,
            res.shares_to_send@ == request.shares_to_send@,
            res.received_shares@ == Seq::<(u8, u64)>::empty(),
            res.received_shares_sums.as_map() == Map::<u8, u64>::empty().insert(
                request.from_peer_id,
                request.received_value,
            ),
            res.state == ReceptionProcessState::AwaitingPeerShares,
            exists|i: int|
                0 <= i < final(self)@.len() && same_rprocess(#[trigger] final(self)@[i], res),
    {
        let mut received_shares_sums = IdMap::new();
        received_shares_sums.insert(request.from_peer_id, request.received_value);
        let process = ReceptionProcess {
            id: request.process_id,
            input: request.input,
            own_share: request.own_share,
            shares_to_send: request.shares_to_send,
            received_shares: IdMap::new(),
            received_shares_sums,
            state: ReceptionProcessState::AwaitingPeerShares,
        };
        self.upsert(process)
    }

    /// Records one more share from a peer.
    pub fn receive_share(&mut self, request: ReceivePeerShareRequest) -> (res: Result<
        ReceptionProcess,
        ReceptionRepositoryError,
    >)
        requires
            old(self).wf(),
        ensures
            final(self).wf(),
            res is Ok <==> (has_rid(old(self)@, request.process_id) && !share_recorded_at(
                old(self)@,
                request.process_id,
                request.from_peer_id,
            )),
            res == Result::<ReceptionProcess, ReceptionRepositoryError>::Err(
                ReceptionRepositoryError::NotFound,
            ) <==> !has_rid(old(self)@, request.process_id),
            res == Result::<ReceptionProcess, ReceptionRepositoryError>::Err(
                ReceptionRepositoryError::AlreadyReceived(request.from_peer_id),
            ) <==> share_recorded_at(old(self)@, request.process_id, request.from_peer_id),
            res is Err ==> final(self)@ == old(self)@,
            res matches Ok(p) ==> exists|i: int|
                {
                    &&& 0 <= i < old(self)@.len()
                    &&& (#[trigger] old(self)@[i]).id == request.process_id
                    &&& !old(self)@[i].received_shares.as_map().contains_key(
                        request.from_peer_id,
                    )
                    &&& final(self)@.len() == old(self)@.len()
                    &&& (forall|j: int|
                        0 <= j < old(self)@.len() && j != i ==> final(self)@[j] == old(
                            self,
                        )@[j])
                    &&& same_rprocess(p, final(self)@[i])
                    &&& p.received_shares.as_map() == old(self)@[i].received_shares.as_map()
                        .insert(request.from_peer_id, request.received_value)
                    &&& p.state == old(self)@[i].state
                    &&& p.received_shares_sums@ == old(self)@[i].received_shares_sums@
                },
    {
        let mut i: usize = 0;
        let n = self.processes.len();
        while i < n
            invariant
                self.wf(),
                self@ == old(self)@,
                n == self@.len(),
                i <= n,
                forall|j: int| 0 <= j < i ==> (#[trigger] self@[j]).id != request.process_id,
            decreases n - i,
        {
            if self.processes[i].id == request.process_id {
                if self.processes[i].received_shares.contains_key(request.from_peer_id) {
                    proof {
                        assert((self@[i as int]).id == request.process_id);
                    }
                    return Err(ReceptionRepositoryError::AlreadyReceived(request.from_peer_id));
                }
                let cur = self.processes[i].clone();
                let mut received_shares = cur.received_shares;
                received_shares.insert(request.from_peer_id, request.received_value);
                let updated = ReceptionProcess {
                    id: cur.id,
                    input: cur.input,
                    own_share: cur.own_share,
                    shares_to_send: cur.shares_to_send,
                    received_shares,
                    received_shares_sums: cur.received_shares_sums,
                    state: cur.state,
                };
                let copy = updated.clone();
                self.processes.set(i, updated);
                proof {
                    assert((old(self)@[i as int]).id == request.process_id);
                    assert(same_rprocess(copy, self@[i as int]));
                }
                return Ok(copy);
            }
            i = i + 1;
        }
        Err(ReceptionRepositoryError::NotFound)
    }

    /// Records the last missing share and advances to awaiting shares-sums.
    pub fn receive_last_share(&mut self, request: ReceiveLastPeerShareRequest) -> (res: Result<
        ReceptionProcess,
        ReceptionRepositoryError,
    >)
        requires
            old(self).wf(),
        ensures
            final(self).wf(),
            res is Ok <==> (has_rid(old(self)@, request.process_id) && !share_recorded_at(
                old(self)@,
                request.process_id,
                request.from_peer_id,
            ) && rawaiting_shares_at(old(self)@, request.process_id)),
            res == Result::<ReceptionProcess, ReceptionRepositoryError>::Err(
                ReceptionRepositoryError::NotFound,
            ) <==> !has_rid(old(self)@, request.process_id),
            res == Result::<ReceptionProcess, ReceptionRepositoryError>::Err(
                ReceptionRepositoryError::AlreadyReceived(request.from_peer_id),
            ) <==> share_recorded_at(old(self)@, request.process_id, request.from_peer_id),
            res == Result::<ReceptionProcess, ReceptionRepositoryError>::Err(
                ReceptionRepositoryError::WrongState,
            ) <==> (has_rid(old(self)@, request.process_id) && !share_recorded_at(
                old(self)@,
                request.process_id,
                request.from_peer_id,
            ) && !rawaiting_shares_at(old(self)@, request.process_id)),
            res is Err ==> final(self)@ == old(self)@,
            res matches Ok(p) ==> exists|i: int|
                {
                    &&& 0 <= i < old(self)@.len()
                    &&& (#[trigger] old(self)@[i]).id == request.process_id
                    &&& !old(self)@[i].received_shares.as_map().contains_key(
                        request.from_peer_id,
                    )
                    &&& old(self)@[i].state is AwaitingPeerShares
                    &&& final(self)@.len() == old(self)@.len()
                    &&& (forall|j: int|
                        0 <= j < old(self)@.len() && j != i ==> final(self)@[j] == old(
                            self,
                        )@[j])
                    &&& same_rprocess(p, final(self)@[i])
                    &&& p.received_shares.as_map() == old(self)@[i].received_shares.as_map()
                        .insert(request.from_peer_id, request.received_value)
                    &&& p.state == (ReceptionProcessState::AwaitingPeerSharesSum {
                        shares_sum: request.computed_shares_sum,
                    })
                },
    {
        let mut i: usize = 0;
        let n = self.processes.len();
        while i < n
            invariant
                self.wf(),
                self@ == old(self)@,
                n == self@.len(),
                i <= n,
                forall|j: int| 0 <= j < i ==> (#[trigger] self@[j]).id != request.process_id,
            decreases n - i,
        {
            if self.processes[i].id == request.process_id {
                if self.processes[i].received_shares.contains_key(request.from_peer_id) {
                    proof {
                        assert((self@[i as int]).id == request.process_id);
                    }
                    return Err(ReceptionRepositoryError::AlreadyReceived(request.from_peer_id));
                }
                let is_awaiting = match self.processes[i].state {
                    ReceptionProcessState::AwaitingPeerShares => true,
                    _ => false,
                };
                if !is_awaiting {
                    proof {
                        assert((self@[i as int]).id == request.process_id);
                    }
                    return Err(ReceptionRepositoryError::WrongState);
                }
                let cur = self.processes[i].clone();
                let mut received_shares = cur.received_shares;
                received_shares.insert(request.from_peer_id, request.received_value);
                let updated = ReceptionProcess {
                    id: cur.id,
                    input: cur.input,
                    own_share: cur.own_share,
                    shares_to_send: cur.shares_to_send,
                    received_shares,
                    received_shares_sums: cur.received_shares_sums,
                    state: ReceptionProcessState::AwaitingPeerSharesSum {
                        shares_sum: request.computed_shares_sum,
                    },
                };
                let copy = updated.clone();
                self.processes.set(i, updated);
                proof {
                    assert((old(self)@[i as int]).id == request.process_id);
                    assert(same_rprocess(copy, self@[i as int]));
                }
                return Ok(copy);
            }
            i = i + 1;
        }
        Err(ReceptionRepositoryError::NotFound)
    }

    /// Records one more shares-sum from a peer.
    pub fn receive_shares_sum(&mut self, request: ReceivePeerSharesSumRequest) -> (res: Result<
        ReceptionProcess,
        ReceptionRepositoryError,
    >)
        requires
            old(self).wf(),
        ensures
            final(self).wf(),
            res is Ok <==> (has_rid(old(self)@, request.process_id) && !sum_recorded_at(
                old(self)@,
                request.process_id,
                request.from_peer_id,
            )),
            res == Result::<ReceptionProcess, ReceptionRepositoryError>::Err(
                ReceptionRepositoryError::NotFound,
            ) <==> !has_rid(old(self)@, request.process_id),
            res == Result::<ReceptionProcess, ReceptionRepositoryError>::Err(
                ReceptionRepositoryError::AlreadyReceived(request.from_peer_id),
            ) <==> sum_recorded_at(old(self)@, request.process_id, request.from_peer_id),
            res is Err ==> final(self)@ == old(self)@,
            res matches Ok(p) ==> exists|i: int|
                {
                    &&& 0 <= i < old(self)@.len()
                    &&& (#[trigger] old(self)@[i]).id == request.process_id
                    &&& !old(self)@[i].received_shares_sums.as_map().contains_key(
                        request.from_peer_id,
                    )
                    &&& final(self)@.len() == old(self)@.len()
                    &&& (forall|j: int|
                        0 <= j < old(self)@.len() && j != i ==> final(self)@[j] == old(
                            self,
                        )@[j])
                    &&& same_rprocess(p, final(self)@[i])
                    &&& p.received_shares_sums.as_map() == old(
                        self,
                    )@[i].received_shares_sums.as_map().insert(
                        request.from_peer_id,
                        request.received_value,
                    )
                    &&& p.state == old(self)@[i].state
                },
    {
        let mut i: usize = 0;
        let n = self.processes.len();
        while i < n
            invariant
                self.wf(),
                self@ == old(self)@,
                n == self@.len(),
                i <= n,
                forall|j: int| 0 <= j < i ==> (#[trigger] self@[j]).id != request.process_id,
            decreases n - i,
        {
            if self.processes[i].id == request.process_id {
                if self.processes[i].received_shares_sums.contains_key(request.from_peer_id) {
                    proof {
                        assert((self@[i as int]).id == request.process_id);
                    }
                    return Err(ReceptionRepositoryError::AlreadyReceived(request.from_peer_id));
                }
                let cur = self.processes[i].clone();
                let mut received_shares_sums = cur.received_shares_sums;
                received_shares_sums.insert(request.from_peer_id, request.received_value);
                let updated = ReceptionProcess {
                    id: cur.id,
                    input: cur.input,
                    own_share: cur.own_share,
                    shares_to_send: cur.shares_to_send,
                    received_shares: cur.received_shares,
                    received_shares_sums,
                    state: cur.state,
                };
                let copy = updated.clone();
                self.processes.set(i, updated);
                proof {
                    assert((old(self)@[i as int]).id == request.process_id);
                    assert(same_rprocess(copy, self@[i as int]));
                }
                return Ok(copy);
            }
            i = i + 1;
        }
        Err(ReceptionRepositoryError::NotFound)
    }

    /// Records the last missing shares-sum and completes the process.
    pub fn receive_last_shares_sum(&mut self, request: ReceiveLastPeerSharesSumRequest) -> (res:
        Result<ReceptionProcess, ReceptionRepositoryError>)
        requires
            old(self).wf(),
        ensures
            final(self).wf(),
            res is Ok <==> (has_rid(old(self)@, request.process_id) && !sum_recorded_at(
                old(self)@,
                request.process_id,
                request.from_peer_id,
            ) && rawaiting_sums_at(old(self)@, request.process_id)),
            res == Result::<ReceptionProcess, ReceptionRepositoryError>::Err(
                ReceptionRepositoryError::NotFound,
            ) <==> !has_rid(old(self)@, request.process_id),
            res == Result::<ReceptionProcess, ReceptionRepositoryError>::Err(
                ReceptionRepositoryError::AlreadyReceived(request.from_peer_id),
            ) <==> sum_recorded_at(old(self)@, request.process_id, request.from_peer_id),
            res == Result::<ReceptionProcess, ReceptionRepositoryError>::Err(
                ReceptionRepositoryError::WrongState,
            ) <==> (has_rid(old(self)@, request.process_id) && !sum_recorded_at(
                old(self)@,
                request.process_id,
                request.from_peer_id,
            ) && !rawaiting_sums_at(old(self)@, request.process_id)),
            res is Err ==> final(self)@ == old(self)@,
            res matches Ok(p) ==> exists|i: int|
                {
                    &&& 0 <= i < old(self)@.len()
                    &&& (#[trigger] old(self)@[i]).id == request.process_id
                    &&& !old(self)@[i].received_shares_sums.as_map().contains_key(
                        request.from_peer_id,
                    )
                    &&& old(self)@[i].state is AwaitingPeerSharesSum
                    &&& final(self)@.len() == old(self)@.len()
                    &&& (forall|j: int|
                        0 <= j < old(self)@.len() && j != i ==> final(self)@[j] == old(
                            self,
                        )@[j])
                    &&& same_rprocess(p, final(self)@[i])
                    &&& p.received_shares_sums.as_map() == old(
                        self,
                    )@[i].received_shares_sums.as_map().insert(
                        request.from_peer_id,
                        request.received_value,
                    )
                    &&& p.state == (ReceptionProcessState::Completed {
                        final_sum: request.final_sum,
                    })
                },
    {
        let mut i: usize = 0;
        let n = self.processes.len();
        while i < n
            invariant
                self.wf(),
                self@ == old(self)@,
                n == self@.len(),
                i <= n,
                forall|j: int| 0 <= j < i ==> (#[trigger] self@[j]).id != request.process_id,
            decreases n - i,
        {
            if self.processes[i].id == request.process_id {
                if self.processes[i].received_shares_sums.contains_key(request.from_peer_id) {
                    proof {
                        assert((self@[i as int]).id == request.process_id);
                    }
                    return Err(ReceptionRepositoryError::AlreadyReceived(request.from_peer_id));
                }
                let is_awaiting = match self.processes[i].state {
                    ReceptionProcessState::AwaitingPeerSharesSum { .. } => true,
                    _ => false,
                };
                if !is_awaiting {
                    proof {
                        assert((self@[i as int]).id == request.process_id);
                    }
                    return Err(ReceptionRepositoryError::WrongState);
                }
                let cur = self.processes[i].clone();
                let mut received_shares_sums = cur.received_shares_sums;
                received_shares_sums.insert(request.from_peer_id, request.received_value);
                let updated = ReceptionProcess {
                    id: cur.id,
                    input: cur.input,
                    own_share: cur.own_share,
                    shares_to_send: cur.shares_to_send,
                    received_shares: cur.received_shares,
                    received_shares_sums,
                    state: ReceptionProcessState::Completed { final_sum: request.final_sum },
                };
                let copy = updated.clone();
                self.processes.set(i, updated);
                proof {
                    assert((old(self)@[i as int]).id == request.process_id);
                    assert(same_rprocess(copy, self@[i as int]));
                }
                return Ok(copy);
            }
            i = i + 1;
        }
        Err(ReceptionRepositoryError::NotFound)
    }

    /// Removes a process; removing an absent id is a no-op.
    #[verifier::rlimit(50)]
    pub fn delete_process(&mut self, process_id: u128)
        requires
            old(self).wf(),
        ensures
            final(self).wf(),
            !has_rid(final(self)@, process_id),
            has_rid(old(self)@, process_id) ==> exists|i: int|
                0 <= i < old(self)@.len() && (#[trigger] old(self)@[i]).id == process_id
                    && final(self)@ == old(self)@.remove(i),
            !has_rid(old(self)@, process_id) ==> final(self)@ == old(self)@,
    {
        let ghost pre = self@;
        let mut i: usize = 0;
        while i < self.processes.len()
            invariant
                self.wf(),
                self@ == pre,
                pre == old(self)@,
                i <= self@.len(),
                forall|j: int| 0 <= j < i ==> (#[trigger] self@[j]).id != process_id,
            decreases self@.len() - i,
        {
            if self.processes[i].id == process_id {
                self.processes.remove(i);
                proof {
                    assert(self@ =~= pre.remove(i as int));
                    assert(pre[i as int].id == process_id);
                    assert forall|k: int| 0 <= k < self@.len() implies (
                    #[trigger] self@[k]).id != process_id by {
                        if k < i {
                            assert(self@[k] == pre[k]);
                        } else {
                            assert(self@[k] == pre[k + 1]);
                        }
                    }
                }
                return ;
            }
            i = i + 1;
        }
    }
}

} // verus!
