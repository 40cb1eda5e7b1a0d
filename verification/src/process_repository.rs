//! The in-memory store of addition processes: every mutation goes through
//! it, keyed by process id, and returns the updated process.

use vstd::prelude::*;

use crate::process::{
    AdditionProcess, AdditionProcessState, CreateProcessRequest, ReceiveSharesRequest,
    ReceiveSharesSumsRequest,
};

verus! {

/// Errors of the repository.
#[derive(Clone, Copy, PartialEq, Eq, Structural, Debug)]
pub enum RepositoryError {
    /// No process with the given id.
    NotFound,
    /// A process with the given id already exists.
    AlreadyExists,
    /// The process is not in the state the request expects.
    WrongState,
}

/// Some stored process has this id.
pub open spec fn has_id(s: Seq<AdditionProcess>, id: u128) -> bool {
    exists|i: int| 0 <= i < s.len() && (#[trigger] s[i]).id == id
}

/// Some stored process has this id and awaits peer shares.
pub open spec fn awaiting_shares_at(s: Seq<AdditionProcess>, id: u128) -> bool {
    exists|i: int|
        0 <= i < s.len() && (#[trigger] s[i]).id == id && s[i].state is AwaitingPeerShares
}

/// Some stored process has this id and awaits peer shares-sums.
pub open spec fn awaiting_sums_at(s: Seq<AdditionProcess>, id: u128) -> bool {
    exists|i: int|
        0 <= i < s.len() && (#[trigger] s[i]).id == id && s[i].state is AwaitingPeerSharesSum
}

/// Two processes hold the same data.
pub open spec fn same_process(a: AdditionProcess, b: AdditionProcess) -> bool {
    &&& a.id == b.id
    &&& a.input == b.input
    &&& a.own_share == b.own_share
    &&& a.shares_to_send@ == b.shares_to_send@
    &&& a.received_shares@ == b.received_shares@
    &&& a.received_shares_sums@ == b.received_shares_sums@
    &&& a.state == b.state
}

/// In-memory process store with unique ids.
pub struct InMemoryAdditionProcessRepository {
    processes: Vec<AdditionProcess>,
}

impl View for InMemoryAdditionProcessRepository {
    type V = Seq<AdditionProcess>;

    closed spec fn view(&self) -> Seq<AdditionProcess> {
        self.processes@
    }
}

impl InMemoryAdditionProcessRepository {
    /// Well-formed: ids unique, every process well-formed.
    pub open spec fn wf(&self) -> bool {
        &&& (forall|i: int, j: int|
            0 <= i < j < self@.len() ==> (#[trigger] self@[i]).id != (#[trigger] self@[j]).id)
        &&& (forall|i: int| 0 <= i < self@.len() ==> (#[trigger] self@[i]).wf())
    }

    /// An empty repository.
    pub fn new() -> (res: InMemoryAdditionProcessRepository)
        ensures
            res.wf(),
            res@ == Seq::<AdditionProcess>::empty(),
    {
        InMemoryAdditionProcessRepository { processes: Vec::new() }
    }

    /// Looks a process up by id, returning a copy.
    pub fn get_process(&self, process_id: u128) -> (res: Result<AdditionProcess, RepositoryError>)
        requires
            self.wf(),
        ensures
            res is Ok <==> has_id(self@, process_id),
            !has_id(self@, process_id) ==> res == Result::<
                AdditionProcess,
                RepositoryError,
            >::Err(RepositoryError::NotFound),
            res matches Ok(p) ==> exists|i: int|
                0 <= i < self@.len() && (#[trigger] self@[i]).id == process_id && same_process(
                    p,
                    self@[i],
                ),
    {
        let mut i: usize = 0;
        while i < self.processes.len()
            invariant
                self.wf(),
                i <= self@.len(),
                forall|j: int| 0 <= j < i ==> (#[trigger] self@[j]).id != process_id,
            decreases self@.len() - i,
        {
            if self.processes[i].id == process_id {
                let p = self.processes[i].clone();
                proof {
                    assert((self@[i as int]).id == process_id);
                    assert(same_process(p, self@[i as int]));
                }
                return Ok(p);
            }
            i = i + 1;
        }
        Err(RepositoryError::NotFound)
    }

    /// Copies of all processes that are not yet completed, in store order.
    pub fn get_ongoing_processes(&self) -> (res: Vec<AdditionProcess>)
        requires
            self.wf(),
        ensures
            forall|k: int|
                0 <= k < res@.len() ==> !((#[trigger] res@[k]).state is Completed) && exists|
                    i: int,
                |
                    0 <= i < self@.len() && same_process(res@[k], #[trigger] self@[i]),
            forall|i: int|
                0 <= i < self@.len() && !((#[trigger] self@[i]).state is Completed) ==> exists|
                    k: int,
                |
                    0 <= k < res@.len() && same_process(#[trigger] res@[k], self@[i]),
            forall|a: int, b: int|
                0 <= a < b < res@.len() ==> (#[trigger] res@[a]).id != (#[trigger] res@[b]).id,
    {
        let mut out: Vec<AdditionProcess> = Vec::new();
        let mut i: usize = 0;
        while i < self.processes.len()
            invariant
                self.wf(),
                i <= self@.len(),
                forall|k: int|
                    0 <= k < out@.len() ==> !((#[trigger] out@[k]).state is Completed) && exists|
                        i2: int,
                    |
                        0 <= i2 < i && same_process(out@[k], #[trigger] self@[i2]),
                forall|a: int, b: int|
                    0 <= a < b < out@.len() ==> (#[trigger] out@[a]).id
                        != (#[trigger] out@[b]).id,
                forall|i2: int|
                    0 <= i2 < i && !((#[trigger] self@[i2]).state is Completed) ==> exists|
                        k: int,
                    |
                        0 <= k < out@.len() && same_process(#[trigger] out@[k], self@[i2]),
            decreases self@.len() - i,
        {
            let is_completed = match self.processes[i].state {
                AdditionProcessState::Completed { .. } => true,
                _ => false,
            };
            let ghost out_before = out@;
            if !is_completed {
                let p = self.processes[i].clone();
                proof {
                    assert(same_process(p, self@[i as int]));
                }
                out.push(p);
                proof {
                    assert(same_process(out@[out@.len() - 1], self@[i as int]));
                    assert forall|i2: int|
                        0 <= i2 < i + 1 && !((#[trigger] self@[i2]).state is Completed) implies
                        exists|k: int|
                        0 <= k < out@.len() && same_process(#[trigger] out@[k], self@[i2]) by {
                        if i2 < i {
                            let k = choose|k: int|
                                0 <= k < out_before.len() && same_process(
                                    #[trigger] out_before[k],
                                    self@[i2],
                                );
                            assert(out@[k] == out_before[k]);
                            assert(same_process(out@[k], self@[i2]));
                        } else {
                            assert(same_process(out@[out@.len() - 1], self@[i2]));
                        }
                    }
                    assert forall|a: int, b: int| 0 <= a < b < out@.len() implies (
                    #[trigger] out@[a]).id != (#[trigger] out@[b]).id by {
                        if b == out@.len() - 1 {
                            assert(out@[a] == out_before[a]);
                            let i2 = choose|i2: int|
                                0 <= i2 < i && same_process(out_before[a], #[trigger] self@[i2]);
                            assert(self@[i2].id != self@[i as int].id);
                        } else {
                            assert(out@[a] == out_before[a]);
                            assert(out@[b] == out_before[b]);
                        }
                    }
                }
            }
            i = i + 1;
        }
        out
    }

    /// Creates a process in the awaiting-shares state; refuses an id that
    /// is already present.
    pub fn create_process(&mut self, request: CreateProcessRequest) -> (res: Result<
        AdditionProcess,
        RepositoryError,
    >)
        requires
            old(self).wf(),
            request.shares_to_send.wf(),
        ensures
            final(self).wf(),
            res is Ok <==> !has_id(old(self)@, request.process_id),
            has_id(old(self)@, request.process_id) ==> final(self)@ == old(self)@ && res
                == Result::<AdditionProcess, RepositoryError>::Err(
                RepositoryError::AlreadyExists,
            ),
            res matches Ok(p) ==> {
                &&& final(self)@.len() == old(self)@.len() + 1
                &&& (forall|j: int| 0 <= j < old(self)@.len() ==> final(self)@[j] == old(self)@[j])
                &&& same_process(p, final(self)@[old(self)@.len() as int])
                &&& p.id == request.process_id
                &&& p.input == request.input
                &&& p.own_share == request.own_share
                &&& p.shares_to_send@ == request.shares_to_send@
                &&& p.received_shares@ == Seq::<(u8, u64)>::empty()
                &&& p.received_shares_sums@ == Seq::<(u8, u64)>::empty()
                &&& p.state == AdditionProcessState::AwaitingPeerShares
            },
    {
        let mut i: usize = 0;
        while i < self.processes.len()
            invariant
                self.wf(),
                self@ == old(self)@,
                i <= self@.len(),
                forall|j: int| 0 <= j < i ==> (#[trigger] self@[j]).id != request.process_id,
            decreases self@.len() - i,
        {
            if self.processes[i].id == request.process_id {
                proof {
                    assert((self@[i as int]).id == request.process_id);
                }
                return Err(RepositoryError::AlreadyExists);
            }
            i = i + 1;
        }
        let process = AdditionProcess {
            id: request.process_id,
            input: request.input,
            own_share: request.own_share,
            shares_to_send: request.shares_to_send,
            received_shares: crate::idmap::IdMap::new(),
            received_shares_sums: crate::idmap::IdMap::new(),
            state: AdditionProcessState::AwaitingPeerShares,
        };
        let copy = process.clone();
        self.processes.push(process);
        proof {
            assert(same_process(copy, self@[self@.len() - 1]));
        }
        Ok(copy)
    }

    /// Merges received shares into the process; when the request carries a
    /// shares-sum the process advances to awaiting shares-sums.
    pub fn receive_shares(&mut self, request: &ReceiveSharesRequest) -> (res: Result<
        AdditionProcess,
        RepositoryError,
    >)
        requires
            old(self).wf(),
            request.received_shares.wf(),
        ensures
            final(self).wf(),
            res is Ok <==> awaiting_shares_at(old(self)@, request.process_id),
            res == Result::<AdditionProcess, RepositoryError>::Err(RepositoryError::NotFound)
                <==> !has_id(old(self)@, request.process_id),
            res == Result::<AdditionProcess, RepositoryError>::Err(RepositoryError::WrongState)
                <==> (has_id(old(self)@, request.process_id) && !awaiting_shares_at(
                old(self)@,
                request.process_id,
            )),
            res is Err ==> final(self)@ == old(self)@,
            res matches Ok(p) ==> exists|i: int|
                {
                    &&& 0 <= i < old(self)@.len()
                    &&& (#[trigger] old(self)@[i]).id == request.process_id
                    &&& old(self)@[i].state is AwaitingPeerShares
                    &&& final(self)@.len() == old(self)@.len()
                    &&& (forall|j: int|
                        0 <= j < old(self)@.len() && j != i ==> final(self)@[j] == old(
                            self,
                        )@[j])
                    &&& same_process(p, final(self)@[i])
                    &&& p.id == request.process_id
                    &&& p.input == old(self)@[i].input
                    &&& p.own_share == old(self)@[i].own_share
                    &&& p.shares_to_send@ == old(self)@[i].shares_to_send@
                    &&& p.received_shares.as_map() == old(self)@[i].received_shares.as_map()
                        .union_prefer_right(request.received_shares.as_map())
                    &&& p.received_shares_sums@ == old(self)@[i].received_shares_sums@
                    &&& p.state == (match request.computed_shares_sum {
                        Some(s) => AdditionProcessState::AwaitingPeerSharesSum {
                            shares_sum: s,
                        },
                        None => AdditionProcessState::AwaitingPeerShares,
                    })
                },
    {
        let mut i: usize = 0;
        let n = self.processes.len();
        while i < n
            invariant
                self.wf(),
                self@ == old(self)@,
                request.received_shares.wf(),
                n == self@.len(),
                i <= n,
                forall|j: int| 0 <= j < i ==> (#[trigger] self@[j]).id != request.process_id,
            decreases n - i,
        {
            if self.processes[i].id == request.process_id {
                let is_awaiting = match self.processes[i].state {
                    AdditionProcessState::AwaitingPeerShares => true,
                    _ => false,
                };
                if !is_awaiting {
                    proof {
                        assert((self@[i as int]).id == request.process_id);
                    }
                    return Err(RepositoryError::WrongState);
                }
                let cur = self.processes[i].clone();
                let merged = crate::process::merge_entries(
                    &cur.received_shares,
                    &request.received_shares,
                );
                let new_state = match request.computed_shares_sum {
                    Some(s) => AdditionProcessState::AwaitingPeerSharesSum { shares_sum: s },
                    None => AdditionProcessState::AwaitingPeerShares,
                };
                let updated = AdditionProcess {
                    id: cur.id,
                    input: cur.input,
                    own_share: cur.own_share,
                    shares_to_send: cur.shares_to_send,
                    received_shares: merged,
                    received_shares_sums: cur.received_shares_sums,
                    state: new_state,
                };
                let copy = updated.clone();
                self.processes.set(i, updated);
                proof {
                    assert((old(self)@[i as int]).id == request.process_id);
                    assert(same_process(copy, self@[i as int]));
                }
                return Ok(copy);
            }
            i = i + 1;
        }
        Err(RepositoryError::NotFound)
    }

    /// Merges received shares-sums into the process; when the request
    /// carries a final sum the process completes.
    pub fn receive_shares_sums(&mut self, request: &ReceiveSharesSumsRequest) -> (res: Result<
        AdditionProcess,
        RepositoryError,
    >)
        requires
            old(self).wf(),
            request.received_shares_sums.wf(),
        ensures
            final(self).wf(),
            res is Ok <==> awaiting_sums_at(old(self)@, request.process_id),
            res == Result::<AdditionProcess, RepositoryError>::Err(RepositoryError::NotFound)
                <==> !has_id(old(self)@, request.process_id),
            res == Result::<AdditionProcess, RepositoryError>::Err(RepositoryError::WrongState)
                <==> (has_id(old(self)@, request.process_id) && !awaiting_sums_at(
                old(self)@,
                request.process_id,
            )),
            res is Err ==> final(self)@ == old(self)@,
            res matches Ok(p) ==> exists|i: int|
                {
                    &&& 0 <= i < old(self)@.len()
                    &&& (#[trigger] old(self)@[i]).id == request.process_id
                    &&& old(self)@[i].state is AwaitingPeerSharesSum
                    &&& final(self)@.len() == old(self)@.len()
                    &&& (forall|j: int|
                        0 <= j < old(self)@.len() && j != i ==> final(self)@[j] == old(
                            self,
                        )@[j])
                    &&& same_process(p, final(self)@[i])
                    &&& p.id == request.process_id
                    &&& p.input == old(self)@[i].input
                    &&& p.own_share == old(self)@[i].own_share
                    &&& p.shares_to_send@ == old(self)@[i].shares_to_send@
                    &&& p.received_shares@ == old(self)@[i].received_shares@
                    &&& p.received_shares_sums.as_map() == old(
                        self,
                    )@[i].received_shares_sums.as_map().union_prefer_right(
                        request.received_shares_sums.as_map(),
                    )
                    &&& p.state == (match (request.final_sum, old(self)@[i].state) {
                        (
                            Some(v),
                            AdditionProcessState::AwaitingPeerSharesSum { shares_sum },
                        ) => AdditionProcessState::Completed { shares_sum, final_sum: v },
                        (_, s) => s,
                    })
                },
    {
        let mut i: usize = 0;
        let n = self.processes.len();
        while i < n
            invariant
                self.wf(),
                self@ == old(self)@,
                request.received_shares_sums.wf(),
                n == self@.len(),
                i <= n,
                forall|j: int| 0 <= j < i ==> (#[trigger] self@[j]).id != request.process_id,
            decreases n - i,
        {
            if self.processes[i].id == request.process_id {
                let shares_sum = match self.processes[i].state {
                    AdditionProcessState::AwaitingPeerSharesSum { shares_sum } => shares_sum,
                    _ => {
                        proof {
                            assert((self@[i as int]).id == request.process_id);
                        }
                        return Err(RepositoryError::WrongState);
                    },
                };
                let cur = self.processes[i].clone();
                let merged = crate::process::merge_entries(
                    &cur.received_shares_sums,
                    &request.received_shares_sums,
                );
                let new_state = match request.final_sum {
                    Some(v) => AdditionProcessState::Completed { shares_sum, final_sum: v },
                    None => AdditionProcessState::AwaitingPeerSharesSum { shares_sum },
                };
                let updated = AdditionProcess {
                    id: cur.id,
                    input: cur.input,
                    own_share: cur.own_share,
                    shares_to_send: cur.shares_to_send,
                    received_shares: cur.received_shares,
                    received_shares_sums: merged,
                    state: new_state,
                };
                let copy = updated.clone();
                self.processes.set(i, updated);
                proof {
                    assert((old(self)@[i as int]).id == request.process_id);
                    assert(same_process(copy, self@[i as int]));
                }
                return Ok(copy);
            }
            i = i + 1;
        }
        Err(RepositoryError::NotFound)
    }

    /// Removes a process; removing an absent id is a no-op.
    #[verifier::rlimit(50)]
    pub fn delete_process(&mut self, process_id: u128)
        requires
            old(self).wf(),
        ensures
            final(self).wf(),
            !has_id(final(self)@, process_id),
            has_id(old(self)@, process_id) ==> exists|i: int|
                0 <= i < old(self)@.len() && (#[trigger] old(self)@[i]).id == process_id
                    && final(self)@ == old(self)@.remove(i),
            !has_id(old(self)@, process_id) ==> final(self)@ == old(self)@,
    {
        let ghost pre = self@;
        let mut i: usize = 0;
        while i < self.processes.len()
            invariant
                self.wf(),
                self@ == pre,
                pre == old(self)@,
                i <= self@.len(),
                forall|j: int| 0 <= j < i ==> (#[trigger] self@[j]).id != process_id,
            decreases self@.len() - i,
        {
            if self.processes[i].id == process_id {
                self.processes.remove(i);
                proof {
                    assert(self@ =~= pre.remove(i as int));
                    assert(pre[i as int].id == process_id);
                    assert forall|k: int| 0 <= k < self@.len() implies (
                    #[trigger] self@[k]).id != process_id by {
                        if k < i {
                            assert(self@[k] == pre[k]);
                        } else {
                            assert(self@[k] == pre[k + 1]);
                        }
                    }
                }
                return ;
            }
            i = i + 1;
        }

    }
}

} // verus!
