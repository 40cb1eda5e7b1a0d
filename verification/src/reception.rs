//! Push-side reception: classifies a single share or shares-sum arriving
//! from a peer against the current process state, and computes the data of
//! the resulting transition. A message for an unknown process bootstraps a
//! fresh one.

use vstd::prelude::*;

use crate::idmap::{entries_sum, IdMap};
use crate::process::{bootstrap_consistent, bootstrap_process, ProcessError, PRIME};
use crate::sharing::Share;

verus! {

/// State of a push-side process.
#[derive(Clone, Copy, PartialEq, Eq, Structural, Debug)]
pub enum ReceptionProcessState {
    AwaitingPeerShares,
    AwaitingPeerSharesSum { shares_sum: u64 },
    Completed { final_sum: u64 },
}

/// A process as the push-side reception tracks it.
#[derive(Debug)]
pub struct ReceptionProcess {
    pub id: u128,
    pub input: u64,
    pub own_share: u64,
    pub shares_to_send: IdMap,
    pub received_shares: IdMap,
    pub received_shares_sums: IdMap,
    pub state: ReceptionProcessState,
}

impl Clone for ReceptionProcess {
    /// A deep copy with identical contents.
    fn clone(&self) -> (res: Self)
        ensures
            res.id == self.id,
            res.input == self.input,
            res.own_share == self.own_share,
            res.shares_to_send@ == self.shares_to_send@,
            res.received_shares@ == self.received_shares@,
            res.received_shares_sums@ == self.received_shares_sums@,
            res.state == self.state,
    {
        ReceptionProcess {
            id: self.id,
            input: self.input,
            own_share: self.own_share,
            shares_to_send: self.shares_to_send.clone(),
            received_shares: self.received_shares.clone(),
            received_shares_sums: self.received_shares_sums.clone(),
            state: self.state,
        }
    }
}

impl ReceptionProcess {
    /// Structural well-formedness of the entry lists.
    pub open spec fn wf(&self) -> bool {
        &&& self.shares_to_send.wf()
        &&& self.received_shares.wf()
        &&& self.received_shares_sums.wf()
    }
}

/// A share arrived for a process this node has not seen: start the process
/// and record the share.
pub struct InitializeProcessRequest {
    pub process_id: u128,
    pub input: u64,
    pub own_share: u64,
    pub shares_to_send: IdMap,
    pub from_peer_id: u8,
    pub received_value: u64,
}

/// A share arrived and more are still missing.
pub struct ReceivePeerShareRequest {
    pub process_id: u128,
    pub from_peer_id: u8,
    pub received_value: u64,
}

/// The last missing share arrived: the node's shares-sum is known.
pub struct ReceiveLastPeerShareRequest {
    pub process_id: u128,
    pub from_peer_id: u8,
    pub received_value: u64,
    pub computed_shares_sum: u64,
}

/// Classification of one incoming share.
pub enum ReceiveShareRequest {
    InitializeProcess(InitializeProcessRequest),
    ReceiveShare(ReceivePeerShareRequest),
    ReceiveLastShare(ReceiveLastPeerShareRequest),
}

/// Why an incoming share is rejected.
#[derive(Clone, Copy, PartialEq, Eq, Structural, Debug)]
pub enum ReceiveShareRequestError {
    /// This peer already delivered its share: duplicate delivery.
    ShareAlreadyReceived(u8),
    /// The process has every share already.
    AllSharesReceived,
    /// Bootstrapping the process failed.
    Process(ProcessError),
}

impl ReceiveShareRequest {
    /// Classifies one incoming share against the current process state.
    ///
    /// A duplicate from the same peer is rejected, which makes re-delivery
    /// harmless; the share completing the set also carries the node's
    /// shares-sum: own share plus every received share, modulo the prime.
    pub fn new(
        process_id: u128,
        server_peer_id: u8,
        peer_ids: &[u8],
        from_peer_id: u8,
        received_value: u64,
        existing_process: Option<&ReceptionProcess>,
    ) -> (res: Result<ReceiveShareRequest, ReceiveShareRequestError>)
        requires
            1 <= peer_ids@.len() < 256,
            (existing_process matches Some(p) ==> p.wf()),
        ensures
            res is Ok <==> (existing_process is None || (existing_process matches Some(p)
                && p.state is AwaitingPeerShares && !p.received_shares.as_map().contains_key(
                from_peer_id,
            ))),
            existing_process matches Some(p) ==> {
                &&& (!(p.state is AwaitingPeerShares) <==> res == Result::<
                    ReceiveShareRequest,
                    ReceiveShareRequestError,
                >::Err(ReceiveShareRequestError::AllSharesReceived))
                &&& ((p.state is AwaitingPeerShares
                    && p.received_shares.as_map().contains_key(from_peer_id)) <==> res
                    == Result::<ReceiveShareRequest, ReceiveShareRequestError>::Err(
                    ReceiveShareRequestError::ShareAlreadyReceived(from_peer_id),
                ))
                &&& (res matches Ok(r) ==> (r matches ReceiveShareRequest::ReceiveShare(q) ==> {
                    &&& p.received_shares@.len() < peer_ids@.len() - 1
                    &&& q.process_id == process_id
                    &&& q.from_peer_id == from_peer_id
                    &&& q.received_value == received_value
                }))
                &&& (res matches Ok(r) ==> (r matches ReceiveShareRequest::ReceiveLastShare(
                    q,
                ) ==> {
                    &&& p.received_shares@.len() >= peer_ids@.len() - 1
                    &&& q.process_id == process_id
                    &&& q.from_peer_id == from_peer_id
                    &&& q.received_value == received_value
                    &&& q.computed_shares_sum as int == (entries_sum(
                        p.received_shares@,
                        PRIME as int,
                    ) + p.own_share + received_value) % (PRIME as int)
                }))
                &&& (res matches Ok(r) ==> !(r is InitializeProcess))
            },
            existing_process is None ==> (res matches Ok(r) && r matches
                ReceiveShareRequest::InitializeProcess(q) && q.process_id == process_id
                && q.from_peer_id == from_peer_id && q.received_value == received_value
                && q.shares_to_send.wf() && exists|coeffs: Seq<u64>| #[trigger]
                bootstrap_consistent(
                q.input,
                q.own_share,
                q.shares_to_send.as_map(),
                coeffs,
                server_peer_id,
                peer_ids@,
            )),
    {
        match existing_process {
            Some(process) => {
                match process.state {
                    ReceptionProcessState::AwaitingPeerShares => {},
                    _ => {
                        return Err(ReceiveShareRequestError::AllSharesReceived);
                    },
                }
                if process.received_shares.contains_key(from_peer_id) {
                    return Err(ReceiveShareRequestError::ShareAlreadyReceived(from_peer_id));
                }
                if process.received_shares.len() < peer_ids.len() - 1 {
                    return Ok(
                        ReceiveShareRequest::ReceiveShare(
                            ReceivePeerShareRequest {
                                process_id,
                                from_peer_id,
                                received_value,
                            },
                        ),
                    );
                }
                let partial = process.received_shares.sum_mod(PRIME);
                let with_own = crate::field::mod_add(partial, process.own_share, PRIME);
                let computed_shares_sum = crate::field::mod_add(
                    with_own,
                    received_value,
                    PRIME,
                );
                proof {
                    let pi = PRIME as int;
                    let s = entries_sum(process.received_shares@, pi);
                    vstd::arithmetic::div_mod::lemma_small_mod(partial as nat, PRIME as nat);
                    vstd::arithmetic::div_mod::lemma_add_mod_noop(
                        s,
                        process.own_share as int,
                        pi,
                    );
                    vstd::arithmetic::div_mod::lemma_mod_twice(s + process.own_share, pi);
                    vstd::arithmetic::div_mod::lemma_add_mod_noop(
                        s + process.own_share,
                        received_value as int,
                        pi,
                    );
                    vstd::arithmetic::div_mod::lemma_small_mod(
                        received_value as nat % (PRIME as nat),
                        PRIME as nat,
                    );
                    vstd::arithmetic::div_mod::lemma_add_mod_noop_right(
                        (s + process.own_share) % pi,
                        received_value as int,
                        pi,
                    );
                }
                Ok(
                    ReceiveShareRequest::ReceiveLastShare(
                        ReceiveLastPeerShareRequest {
                            process_id,
                            from_peer_id,
                            received_value,
                            computed_shares_sum,
                        },
                    ),
                )
            },
            None => {
                let bootstrap = match bootstrap_process(server_peer_id, peer_ids) {
                    Ok(b) => b,
                    Err(e) => {
                        return Err(ReceiveShareRequestError::Process(e));
                    },
                };
                let ghost coeffs = choose|coeffs: Seq<u64>| #[trigger] bootstrap_consistent(
                    bootstrap.input,
                    bootstrap.own_share,
                    bootstrap.shares_to_send.as_map(),
                    coeffs,
                    server_peer_id,
                    peer_ids@,
                );
                let request = InitializeProcessRequest {
                    process_id,
                    input: bootstrap.input,
                    own_share: bootstrap.own_share,
                    shares_to_send: bootstrap.shares_to_send,
                    from_peer_id,
                    received_value,
                };
                proof {
                    assert(bootstrap_consistent(
                        request.input,
                        request.own_share,
                        request.shares_to_send.as_map(),
                        coeffs,
                        server_peer_id,
                        peer_ids@,
                    ));
                }
                Ok(ReceiveShareRequest::InitializeProcess(request))
            },
        }
    }
}

/// A shares-sum arrived and more are still missing.
pub struct ReceivePeerSharesSumRequest {
    pub process_id: u128,
    pub from_peer_id: u8,
    pub received_value: u64,
}

/// The last missing shares-sum arrived: the final sum is known.
pub struct ReceiveLastPeerSharesSumRequest {
    pub process_id: u128,
    pub from_peer_id: u8,
    pub received_value: u64,
    pub final_sum: u64,
}

/// Classification of one incoming shares-sum.
pub enum ReceiveSharesSumRequest {
    InitializeProcess(InitializeProcessRequest),
    ReceiveSharesSum(ReceivePeerSharesSumRequest),
    ReceiveLastSharesSum(ReceiveLastPeerSharesSumRequest),
}

/// Why an incoming shares-sum is rejected.
#[derive(Clone, Copy, PartialEq, Eq, Structural, Debug)]
pub enum ReceiveSharesSumRequestError {
    /// This peer already delivered its shares-sum.
    SumSharesAlreadyReceived(u8),
    /// The process is complete; every shares-sum is in.
    AllSharesSumsReceived,
    /// Bootstrapping the process failed.
    Process(ProcessError),
}

/// The coordinates used for the final reconstruction: the node's own
/// shares-sum, every recorded one, then the one that just arrived.
pub open spec fn final_coordinates(
    server_peer_id: u8,
    shares_sum: u64,
    recorded: Seq<(u8, u64)>,
    from_peer_id: u8,
    received_value: u64,
) -> Seq<Share> {
    seq![Share { point: server_peer_id, value: shares_sum }] + recorded.map_values(
        |e: (u8, u64)| Share { point: e.0, value: e.1 },
    ) + seq![Share { point: from_peer_id, value: received_value }]
}

impl ReceiveSharesSumRequest {
    /// Classifies one incoming shares-sum against the current process
    /// state. The sum completing the set triggers reconstruction of the
    /// final sum from the node's own shares-sum and every received one.
    pub fn new(
        process_id: u128,
        server_peer_id: u8,
        peer_ids: &[u8],
        from_peer_id: u8,
        received_value: u64,
        existing_process: Option<&ReceptionProcess>,
    ) -> (res: Result<ReceiveSharesSumRequest, ReceiveSharesSumRequestError>)
        requires
            1 <= peer_ids@.len() < 256,
            (existing_process matches Some(p) ==> p.wf()),
        ensures
            existing_process is None ==> res is Ok,
            existing_process matches Some(p) ==> {
                &&& ((!p.received_shares_sums.as_map().contains_key(from_peer_id) && p.state is
                    AwaitingPeerShares) ==> res is Ok)
                &&& ((!p.received_shares_sums.as_map().contains_key(from_peer_id) && p.state is
                    AwaitingPeerSharesSum && p.received_shares_sums@.len() < peer_ids@.len()
                    - 1) ==> res is Ok)
                &&& ((!p.received_shares_sums.as_map().contains_key(from_peer_id) && p.state is
                    AwaitingPeerSharesSum && crate::primes::is_prime(PRIME as nat)
                    && !p.received_shares_sums.as_map().contains_key(server_peer_id)
                    && server_peer_id != from_peer_id) ==> res is Ok)
                &&& (res matches Err(e) ==> (e is SumSharesAlreadyReceived || e is
                    AllSharesSumsReceived || (e is Process && p.state is AwaitingPeerSharesSum
                    && p.received_shares_sums@.len() >= peer_ids@.len() - 1)))
            },
            existing_process matches Some(p) ==> {
                &&& (p.received_shares_sums.as_map().contains_key(from_peer_id) <==> res
                    == Result::<ReceiveSharesSumRequest, ReceiveSharesSumRequestError>::Err(
                    ReceiveSharesSumRequestError::SumSharesAlreadyReceived(from_peer_id),
                ))
                &&& ((!p.received_shares_sums.as_map().contains_key(from_peer_id) && p.state is
                    Completed) <==> res == Result::<
                    ReceiveSharesSumRequest,
                    ReceiveSharesSumRequestError,
                >::Err(ReceiveSharesSumRequestError::AllSharesSumsReceived))
                &&& (res matches Ok(r) ==> (r matches
                    ReceiveSharesSumRequest::ReceiveSharesSum(q) ==> {
                    &&& (p.state is AwaitingPeerShares || (p.state is AwaitingPeerSharesSum
                        && p.received_shares_sums@.len() < peer_ids@.len() - 1))
                    &&& q.process_id == process_id
                    &&& q.from_peer_id == from_peer_id
                    &&& q.received_value == received_value
                }))
                &&& (res matches Ok(r) ==> (r matches
                    ReceiveSharesSumRequest::ReceiveLastSharesSum(q) ==> {
                    &&& p.state matches ReceptionProcessState::AwaitingPeerSharesSum {
                        shares_sum,
                    } && crate::process::recovered_value(
                        q.final_sum,
                        final_coordinates(
                            server_peer_id,
                            shares_sum,
                            p.received_shares_sums@,
                            from_peer_id,
                            received_value,
                        ),
                    )
                    &&& p.received_shares_sums@.len() >= peer_ids@.len() - 1
                    &&& q.process_id == process_id
                    &&& q.from_peer_id == from_peer_id
                    &&& q.received_value == received_value
                }))
                &&& (res matches Ok(r) ==> !(r is InitializeProcess))
            },
            existing_process is None ==> (res matches Ok(r) && r matches
                ReceiveSharesSumRequest::InitializeProcess(q) && q.process_id == process_id
                && q.from_peer_id == from_peer_id && q.received_value == received_value
                && q.shares_to_send.wf() && exists|coeffs: Seq<u64>| #[trigger]
                bootstrap_consistent(
                q.input,
                q.own_share,
                q.shares_to_send.as_map(),
                coeffs,
                server_peer_id,
                peer_ids@,
            )),
    {
        match existing_process {
            Some(process) => {
                if process.received_shares_sums.contains_key(from_peer_id) {
                    return Err(
                        ReceiveSharesSumRequestError::SumSharesAlreadyReceived(from_peer_id),
                    );
                }
                let shares_sum = match process.state {
                    ReceptionProcessState::Completed { .. } => {
                        return Err(ReceiveSharesSumRequestError::AllSharesSumsReceived);
                    },
                    ReceptionProcessState::AwaitingPeerShares => {
                        return Ok(
                            ReceiveSharesSumRequest::ReceiveSharesSum(
                                ReceivePeerSharesSumRequest {
                                    process_id,
                                    from_peer_id,
                                    received_value,
                                },
                            ),
                        );
                    },
                    ReceptionProcessState::AwaitingPeerSharesSum { shares_sum } => shares_sum,
                };
                if process.received_shares_sums.len() < peer_ids.len() - 1 {
                    return Ok(
                        ReceiveSharesSumRequest::ReceiveSharesSum(
                            ReceivePeerSharesSumRequest {
                                process_id,
                                from_peer_id,
                                received_value,
                            },
                        ),
                    );
                }
                let mut all_shares_sums: Vec<Share> = Vec::new();
                all_shares_sums.push(Share { point: server_peer_id, value: shares_sum });
                let mut i: usize = 0;
                let n = process.received_shares_sums.len();
                while i < n
                    invariant
                        process.wf(),
                        i <= n,
                        n == process.received_shares_sums@.len(),
                        all_shares_sums@.len() == i + 1,
                        all_shares_sums@[0] == (Share {
                            point: server_peer_id,
                            value: shares_sum,
                        }),
                        forall|k: int|
                            0 <= k < i ==> all_shares_sums@[k + 1] == (Share {
                                point: (#[trigger] process.received_shares_sums@[k]).0,
                                value: process.received_shares_sums@[k].1,
                            }),
                    decreases n - i,
                {
                    let e = process.received_shares_sums.entry_at(i);
                    all_shares_sums.push(Share { point: e.0, value: e.1 });
                    i = i + 1;
                }
                all_shares_sums.push(Share { point: from_peer_id, value: received_value });
                proof {
                    assert(all_shares_sums@ =~= final_coordinates(
                        server_peer_id,
                        shares_sum,
                        process.received_shares_sums@,
                        from_peer_id,
                        received_value,
                    ));
                    crate::idmap::lemma_entries_len_bound(process.received_shares_sums@);
                    assert forall|k: int| 0 <= k < all_shares_sums@.len() implies (
                    #[trigger] all_shares_sums@[k]).point < PRIME by {}
                    crate::idmap::lemma_entries_map_keys(process.received_shares_sums@);
                    let recorded = process.received_shares_sums@;
                    let last = all_shares_sums@.len() - 1;
                    if !process.received_shares_sums.as_map().contains_key(server_peer_id)
                        && server_peer_id != from_peer_id {
                        let pts = crate::sharing::share_points(all_shares_sums@);
                        assert forall|a: int, b: int| 0 <= a < b < pts.len() implies pts[a]
                            != pts[b] by {
                            assert(pts[a] == all_shares_sums@[a].point as u64);
                            assert(pts[b] == all_shares_sums@[b].point as u64);
                            if a == 0 && b < last {
                                assert(all_shares_sums@[b].point == recorded[b - 1].0);
                                if all_shares_sums@[b].point == server_peer_id {
                                    assert(crate::idmap::entries_map(recorded).contains_key(
                                        recorded[b - 1].0,
                                    ));
                                }
                            } else if a == 0 && b == last {
                                assert(all_shares_sums@[b].point == from_peer_id);
                            } else if b < last {
                                assert(all_shares_sums@[a].point == recorded[a - 1].0);
                                assert(all_shares_sums@[b].point == recorded[b - 1].0);
                                assert(recorded[a - 1].0 < recorded[b - 1].0);
                            } else {
                                assert(all_shares_sums@[a].point == recorded[a - 1].0);
                                assert(all_shares_sums@[b].point == from_peer_id);
                                if recorded[a - 1].0 == from_peer_id {
                                    assert(crate::idmap::entries_map(recorded).contains_key(
                                        recorded[a - 1].0,
                                    ));
                                }
                            }
                        }
                        assert(crate::poly::all_distinct(pts));
                    }
                }
                let final_sum = match crate::sharing::recover_secret(
                    all_shares_sums.as_slice(),
                    PRIME,
                ) {
                    Ok(v) => v,
                    Err(e) => {
                        return Err(
                            ReceiveSharesSumRequestError::Process(ProcessError::Recovery(e)),
                        );
                    },
                };
                Ok(
                    ReceiveSharesSumRequest::ReceiveLastSharesSum(
                        ReceiveLastPeerSharesSumRequest {
                            process_id,
                            from_peer_id,
                            received_value,
                            final_sum,
                        },
                    ),
                )
            },
            None => {
                let bootstrap = match bootstrap_process(server_peer_id, peer_ids) {
                    Ok(b) => b,
                    Err(e) => {
                        return Err(ReceiveSharesSumRequestError::Process(e));
                    },
                };
                let ghost coeffs = choose|coeffs: Seq<u64>| #[trigger] bootstrap_consistent(
                    bootstrap.input,
                    bootstrap.own_share,
                    bootstrap.shares_to_send.as_map(),
                    coeffs,
                    server_peer_id,
                    peer_ids@,
                );
                let request = InitializeProcessRequest {
                    process_id,
                    input: bootstrap.input,
                    own_share: bootstrap.own_share,
                    shares_to_send: bootstrap.shares_to_send,
                    from_peer_id,
                    received_value,
                };
                proof {
                    assert(bootstrap_consistent(
                        request.input,
                        request.own_share,
                        request.shares_to_send.as_map(),
                        coeffs,
                        server_peer_id,
                        peer_ids@,
                    ));
                }
                Ok(ReceiveSharesSumRequest::InitializeProcess(request))
            },
        }
    }
}

} // verus!
