//! The per-process domain of the addition protocol: the state machine each
//! node runs for one addition process, and the pure request builders that
//! validate a proposed transition and compute its effect.

use vstd::prelude::*;

use crate::idmap::{entries_map, entries_sum, IdMap};
use crate::poly::{poly_eval, PolyError};
use crate::sharing::{split_consistent, split_secret, Share};

verus! {

/// The prime modulus of the field.
pub const PRIME: u64 = 1_000_000_007;

/// State of an addition process; the protocol only ever moves forward.
#[derive(Clone, Copy, PartialEq, Eq, Structural, Debug)]
pub enum AdditionProcessState {
    AwaitingPeerShares,
    AwaitingPeerSharesSum { shares_sum: u64 },
    Completed { shares_sum: u64, final_sum: u64 },
}

/// One addition process: the node's input, its own share, the shares it
/// owes its peers, and what it has received from them so far.
#[derive(Debug)]
pub struct AdditionProcess {
    pub id: u128,
    pub input: u64,
    pub own_share: u64,
    pub shares_to_send: IdMap,
    pub received_shares: IdMap,
    pub received_shares_sums: IdMap,
    pub state: AdditionProcessState,
}

impl Clone for AdditionProcess {
    /// A deep copy with identical contents.
    fn clone(&self) -> (res: Self)
        ensures
            res.id == self.id,
            res.input == self.input,
            res.own_share == self.own_share,
            res.shares_to_send@ == self.shares_to_send@,
            res.received_shares@ == self.received_shares@,
            res.received_shares_sums@ == self.received_shares_sums@,
            res.state == self.state,
    {
        AdditionProcess {
            id: self.id,
            input: self.input,
            own_share: self.own_share,
            shares_to_send: self.shares_to_send.clone(),
            received_shares: self.received_shares.clone(),
            received_shares_sums: self.received_shares_sums.clone(),
            state: self.state,
        }
    }
}

impl AdditionProcess {
    /// Structural well-formedness of the entry lists.
    pub open spec fn wf(&self) -> bool {
        &&& self.shares_to_send.wf()
        &&& self.received_shares.wf()
        &&& self.received_shares_sums.wf()
    }
}

/// What a peer that asks for progress is told: its own share of this
/// node's input, and this node's shares-sum once it is known.
#[derive(Clone, Copy, PartialEq, Eq, Structural, Debug)]
pub struct AdditionProcessProgress {
    pub share: u64,
    pub shares_sum: Option<u64>,
}

/// Errors of the process domain.
#[derive(Clone, Copy, PartialEq, Eq, Structural, Debug)]
pub enum ProcessError {
    /// The process is not in the state the request needs.
    InvalidState,
    /// The node's own share went missing after a split: a bug.
    InvariantViolation,
    /// Reconstruction of the final sum failed.
    Recovery(PolyError),
}

/// The data a node needs to take part in one process: a fresh random
/// input, its own share of it, and one share for every other peer.
pub struct BootstrapProcessResult {
    pub input: u64,
    pub own_share: u64,
    pub shares_to_send: IdMap,
}

/// The bootstrap result is consistent with one sharing polynomial:
/// constant term the input, the node's own share and every outgoing share
/// an evaluation at the owner's id.
pub open spec fn bootstrap_consistent(
    input: u64,
    own_share: u64,
    shares_to_send: Map<u8, u64>,
    coeffs: Seq<u64>,
    server_peer_id: u8,
    peer_ids: Seq<u8>,
) -> bool {
    &&& coeffs.len() >= 1
    &&& coeffs[0] == input
    &&& own_share as int == poly_eval(coeffs, server_peer_id as int, PRIME as int)
    &&& (forall|k: u8|
        shares_to_send.contains_key(k) <==> (peer_ids.contains(k) && k != server_peer_id))
    &&& (forall|i: int|
        0 <= i < peer_ids.len() && peer_ids[i] != server_peer_id
            ==> shares_to_send[#[trigger] peer_ids[i]] as int == poly_eval(
            coeffs,
            peer_ids[i] as int,
            PRIME as int,
        ))
}

/// Draws a random input, splits it over all participant ids, and keeps the
/// node's own share apart from the shares to send.
pub fn bootstrap_process(server_peer_id: u8, peer_ids: &[u8]) -> (res: Result<
    BootstrapProcessResult,
    ProcessError,
>)
    requires
        peer_ids@.len() < 256,
    ensures
        res is Ok,
        res matches Ok(b) ==> b.shares_to_send.wf() && b.input < 0x1_0000 && exists|
            coeffs: Seq<u64>,
        | #[trigger] bootstrap_consistent(
            b.input,
            b.own_share,
            b.shares_to_send.as_map(),
            coeffs,
            server_peer_id,
            peer_ids@,
        ),
{
    let input: u64 = rand::random::<u16>() as u64;
    let mut all_ids: Vec<u8> = Vec::new();
    let mut i: usize = 0;
    while i < peer_ids.len()
        invariant
            i <= peer_ids@.len(),
            all_ids@ == peer_ids@.take(i as int),
        decreases peer_ids@.len() - i,
    {
        all_ids.push(peer_ids[i]);
        proof {
            assert(all_ids@ =~= peer_ids@.take(i + 1));
        }
        i = i + 1;
    }
    proof {
        assert(all_ids@ =~= peer_ids@);
    }
    all_ids.push(server_peer_id);
    let mut input_shares = split_secret(input, &all_ids, PRIME);
    let ghost coeffs = choose|coeffs: Seq<u64>| #[trigger] split_consistent(
        input_shares.as_map(),
        coeffs,
        input,
        all_ids@,
        PRIME,
    );
    proof {
        assert(split_consistent(input_shares.as_map(), coeffs, input, all_ids@, PRIME));
        assert(all_ids@[peer_ids@.len() as int] == server_peer_id);
        assert(all_ids@.contains(server_peer_id));
    }
    let ghost m0 = input_shares.as_map();
    let own_share = match input_shares.remove(server_peer_id) {
        Some(v) => v,
        None => {
            return Err(ProcessError::InvariantViolation);
        },
    };
    proof {
        let li = all_ids@.len() - 1;
        assert(all_ids@[li] == server_peer_id);
        assert(m0[all_ids@[li]] as int == poly_eval(coeffs, all_ids@[li] as int, PRIME as int));
        assert(own_share == m0[server_peer_id]);
        assert(own_share as int == poly_eval(coeffs, server_peer_id as int, PRIME as int));
        assert forall|k: u8| input_shares.as_map().contains_key(k) <==> (peer_ids@.contains(k)
            && k != server_peer_id) by {
            if input_shares.as_map().contains_key(k) {
                assert(all_ids@.contains(k));
                let w = choose|w: int| 0 <= w < all_ids@.len() && all_ids@[w] == k;
                if w < peer_ids@.len() {
                    assert(peer_ids@[w] == k);
                }
            }
            if peer_ids@.contains(k) && k != server_peer_id {
                let w = choose|w: int| 0 <= w < peer_ids@.len() && peer_ids@[w] == k;
                assert(all_ids@[w] == k);
                assert(all_ids@.contains(k));
            }
        }
        assert forall|i2: int|
            0 <= i2 < peer_ids@.len() && peer_ids@[i2] != server_peer_id implies
            input_shares.as_map()[#[trigger] peer_ids@[i2]] as int == poly_eval(
            coeffs,
            peer_ids@[i2] as int,
            PRIME as int,
        ) by {
            assert(all_ids@[i2] == peer_ids@[i2]);
        }
        assert(bootstrap_consistent(
            input,
            own_share,
            input_shares.as_map(),
            coeffs,
            server_peer_id,
            peer_ids@,
        ));
    }
    let result = BootstrapProcessResult { input, own_share, shares_to_send: input_shares };
    proof {
        assert(bootstrap_consistent(
            result.input,
            result.own_share,
            result.shares_to_send.as_map(),
            coeffs,
            server_peer_id,
            peer_ids@,
        ));
    }
    Ok(result)
}

/// Request to create a fresh process with a known id.
pub struct CreateProcessRequest {
    pub process_id: u128,
    pub input: u64,
    pub own_share: u64,
    pub shares_to_send: IdMap,
}

impl CreateProcessRequest {
    /// Bootstraps a process for the given id.
    pub fn new(process_id: u128, server_peer_id: u8, peer_ids: &[u8]) -> (res: Result<
        CreateProcessRequest,
        ProcessError,
    >)
        requires
            peer_ids@.len() < 256,
        ensures
            res is Ok,
            res matches Ok(r) ==> r.process_id == process_id && r.shares_to_send.wf() && exists|
                coeffs: Seq<u64>,
            | #[trigger] bootstrap_consistent(
                r.input,
                r.own_share,
                r.shares_to_send.as_map(),
                coeffs,
                server_peer_id,
                peer_ids@,
            ),
    {
        let bootstrap = match bootstrap_process(server_peer_id, peer_ids) {
            Ok(b) => b,
            Err(e) => {
                return Err(e);
            },
        };
        let ghost coeffs = choose|coeffs: Seq<u64>| #[trigger] bootstrap_consistent(
            bootstrap.input,
            bootstrap.own_share,
            bootstrap.shares_to_send.as_map(),
            coeffs,
            server_peer_id,
            peer_ids@,
        );
        let request = CreateProcessRequest {
            process_id,
            input: bootstrap.input,
            own_share: bootstrap.own_share,
            shares_to_send: bootstrap.shares_to_send,
        };
        proof {
            assert(bootstrap_consistent(
                request.input,
                request.own_share,
                request.shares_to_send.as_map(),
                coeffs,
                server_peer_id,
                peer_ids@,
            ));
        }
        Ok(request)
    }
}

/// Merges `additions` into a copy of `base`, preferring the new values.
pub fn merge_entries(base: &IdMap, additions: &IdMap) -> (res: IdMap)
    requires
        base.wf(),
        additions.wf(),
    ensures
        res.wf(),
        res.as_map() == base.as_map().union_prefer_right(additions.as_map()),
{
    let mut merged = base.clone();
    let mut i: usize = 0;
    let n = additions.len();
    proof {
        assert(additions@.take(0) =~= Seq::<(u8, u64)>::empty());
        assert(merged.as_map() =~= base.as_map().union_prefer_right(
            entries_map(additions@.take(0)),
        ));
    }
    while i < n
        invariant
            base.wf(),
            additions.wf(),
            merged.wf(),
            i <= n,
            n == additions@.len(),
            merged.as_map() == base.as_map().union_prefer_right(
                entries_map(additions@.take(i as int)),
            ),
        decreases n - i,
    {
        let e = additions.entry_at(i);
        merged.insert(e.0, e.1);
        proof {
            assert(additions@.take(i + 1).drop_last() =~= additions@.take(i as int));
            assert(additions@.take(i + 1).last() == additions@[i as int]);
            assert(entries_map(additions@.take(i + 1)) == entries_map(
                additions@.take(i as int),
            ).insert(e.0, e.1));
            assert(base.as_map().union_prefer_right(
                entries_map(additions@.take(i as int)),
            ).insert(e.0, e.1) =~= base.as_map().union_prefer_right(
                entries_map(additions@.take(i + 1)),
            ));
        }
        i = i + 1;
    }
    proof {
        assert(additions@.take(n as int) =~= additions@);
    }
    merged
}

/// Request to fold newly received peer shares into a process, carrying the
/// already-merged share map and, once every peer has contributed, the
/// node's shares-sum.
#[derive(Debug)]
pub struct ReceiveSharesRequest {
    pub process_id: u128,
    /// All received shares after the merge.
    pub received_shares: IdMap,
    /// Computed shares sum if all shares have been registered.
    pub computed_shares_sum: Option<u64>,
}

impl ReceiveSharesRequest {
    /// Validates the transition and computes its effect: merge the new
    /// shares; when `peers_count` distinct peers have contributed, the
    /// shares-sum is the node's own share plus all received shares, modulo
    /// the prime.
    pub fn new(process: &AdditionProcess, received_shares: &IdMap, peers_count: usize) -> (res:
        Result<ReceiveSharesRequest, ProcessError>)
        requires
            process.wf(),
            received_shares.wf(),
        ensures
            res is Ok <==> process.state is AwaitingPeerShares,
            !(process.state is AwaitingPeerShares) ==> res == Result::<
                ReceiveSharesRequest,
                ProcessError,
            >::Err(ProcessError::InvalidState),
            res matches Ok(r) ==> {
                &&& r.process_id == process.id
                &&& r.received_shares.wf()
                &&& r.received_shares.as_map() == process.received_shares.as_map()
                    .union_prefer_right(received_shares.as_map())
                &&& (r.computed_shares_sum is Some <==> r.received_shares.as_map().dom().len()
                    >= peers_count)
                &&& (r.computed_shares_sum matches Some(s) ==> s as int == (entries_sum(
                    r.received_shares@,
                    PRIME as int,
                ) + process.own_share) % (PRIME as int))
            },
    {
        match process.state {
            AdditionProcessState::AwaitingPeerShares => {},
            _ => {
                return Err(ProcessError::InvalidState);
            },
        }
        let merged = merge_entries(&process.received_shares, received_shares);
        let count = merged.len();
        if count < peers_count {
            return Ok(
                ReceiveSharesRequest {
                    process_id: process.id,
                    received_shares: merged,
                    computed_shares_sum: None,
                },
            );
        }
        let total = merged.sum_mod(PRIME);
        let computed = crate::field::mod_add(total, process.own_share, PRIME);
        proof {
            vstd::arithmetic::div_mod::lemma_add_mod_noop(
                entries_sum(merged@, PRIME as int),
                process.own_share as int,
                PRIME as int,
            );
            vstd::arithmetic::div_mod::lemma_small_mod(total as nat, PRIME as nat);
        }
        Ok(
            ReceiveSharesRequest {
                process_id: process.id,
                received_shares: merged,
                computed_shares_sum: Some(computed),
            },
        )
    }
}

/// The coordinates handed to reconstruction: the node's own shares-sum at
/// its own id, then every received peer shares-sum.
pub open spec fn sum_coordinates(own_peer_id: u8, shares_sum: u64, merged: Seq<(u8, u64)>) -> Seq<
    Share,
> {
    seq![Share { point: own_peer_id, value: shares_sum }] + merged.map_values(
        |e: (u8, u64)| Share { point: e.0, value: e.1 },
    )
}

/// Request to fold newly received peer shares-sums into a process,
/// carrying the merged map and, once every peer has contributed, the
/// reconstructed final sum.
pub struct ReceiveSharesSumsRequest {
    pub process_id: u128,
    /// All received shares sums after the merge.
    pub received_shares_sums: IdMap,
    /// Computed final sum if all shares sums have been registered.
    pub final_sum: Option<u64>,
}

impl ReceiveSharesSumsRequest {
    /// Validates the transition and computes its effect: merge the new
    /// shares-sums; when `peers_count` distinct peers have contributed,
    /// reconstruct the final sum by interpolating through the node's own
    /// shares-sum and all received ones, evaluated at zero.
    pub fn new(
        process: &AdditionProcess,
        received_shares_sums: &IdMap,
        own_peer_id: u8,
        peers_count: usize,
    ) -> (res: Result<ReceiveSharesSumsRequest, ProcessError>)
        requires
            process.wf(),
            received_shares_sums.wf(),
        ensures
            res is Ok ==> process.state is AwaitingPeerSharesSum,
            res == Result::<ReceiveSharesSumsRequest, ProcessError>::Err(
                ProcessError::InvalidState,
            ) <==> !(process.state is AwaitingPeerSharesSum),
            (process.state is AwaitingPeerSharesSum
                && process.received_shares_sums.as_map().union_prefer_right(
                received_shares_sums.as_map(),
            ).dom().len() < peers_count) ==> res is Ok,
            (process.state is AwaitingPeerSharesSum && crate::primes::is_prime(PRIME as nat)
                && !process.received_shares_sums.as_map().union_prefer_right(
                received_shares_sums.as_map(),
            ).contains_key(own_peer_id)) ==> res is Ok,
            res matches Err(e) ==> (e is InvalidState || (e is Recovery && process.state is
                AwaitingPeerSharesSum && process.received_shares_sums.as_map()
                .union_prefer_right(received_shares_sums.as_map()).dom().len()
                >= peers_count)),
            res matches Ok(r) ==> {
                &&& r.process_id == process.id
                &&& r.received_shares_sums.wf()
                &&& r.received_shares_sums.as_map() == process.received_shares_sums.as_map()
                    .union_prefer_right(received_shares_sums.as_map())
                &&& (r.final_sum is Some <==> r.received_shares_sums.as_map().dom().len()
                    >= peers_count)
                &&& (r.final_sum matches Some(v) ==> (process.state matches
                    AdditionProcessState::AwaitingPeerSharesSum { shares_sum } && recovered_value(
                    v,
                    sum_coordinates(own_peer_id, shares_sum, r.received_shares_sums@),
                )))
            },
    {
        let shares_sum = match process.state {
            AdditionProcessState::AwaitingPeerSharesSum { shares_sum } => shares_sum,
            _ => {
                return Err(ProcessError::InvalidState);
            },
        };
        let merged = merge_entries(&process.received_shares_sums, received_shares_sums);
        let count = merged.len();
        if count < peers_count {
            return Ok(
                ReceiveSharesSumsRequest {
                    process_id: process.id,
                    received_shares_sums: merged,
                    final_sum: None,
                },
            );
        }
        let mut all_sums: Vec<Share> = Vec::new();
        all_sums.push(Share { point: own_peer_id, value: shares_sum });
        let mut i: usize = 0;
        let n = merged.len();
        while i < n
            invariant
                merged.wf(),
                i <= n,
                n == merged@.len(),
                all_sums@.len() == i + 1,
                all_sums@[0] == (Share { point: own_peer_id, value: shares_sum }),
                forall|k: int|
                    0 <= k < i ==> all_sums@[k + 1] == (Share {
                        point: (#[trigger] merged@[k]).0,
                        value: merged@[k].1,
                    }),
            decreases n - i,
        {
            let e = merged.entry_at(i);
            all_sums.push(Share { point: e.0, value: e.1 });
            i = i + 1;
        }
        proof {
            assert(all_sums@ =~= sum_coordinates(own_peer_id, shares_sum, merged@));
            crate::idmap::lemma_entries_len_bound(merged@);
            assert forall|k: int| 0 <= k < all_sums@.len() implies (#[trigger] all_sums@[k]).point
                < PRIME by {}
            crate::idmap::lemma_entries_map_keys(merged@);
            if !merged.as_map().contains_key(own_peer_id) {
                let pts = crate::sharing::share_points(all_sums@);
                assert forall|a: int, b: int| 0 <= a < b < pts.len() implies pts[a]
                    != pts[b] by {
                    assert(pts[a] == all_sums@[a].point as u64);
                    assert(pts[b] == all_sums@[b].point as u64);
                    if a == 0 {
                        assert(all_sums@[b].point == merged@[b - 1].0);
                        if all_sums@[b].point == own_peer_id {
                            assert(merged.as_map().contains_key(merged@[b - 1].0));
                        }
                    } else {
                        assert(all_sums@[a].point == merged@[a - 1].0);
                        assert(all_sums@[b].point == merged@[b - 1].0);
                        assert(merged@[a - 1].0 < merged@[b - 1].0);
                    }
                }
                assert(crate::poly::all_distinct(pts));
            }
        }
        let final_sum = match crate::sharing::recover_secret(
            all_sums.as_slice(),
            PRIME,
        ) {
            Ok(v) => v,
            Err(e) => {
                return Err(ProcessError::Recovery(e));
            },
        };
        Ok(
            ReceiveSharesSumsRequest {
                process_id: process.id,
                received_shares_sums: merged,
                final_sum: Some(final_sum),
            },
        )
    }
}

/// What reconstruction promises of its result `v` for coordinates `shs`:
/// under a prime modulus and distinct points, `v` is the value at zero of
/// every polynomial of degree below the coordinate count through them.
pub open spec fn recovered_value(v: u64, shs: Seq<Share>) -> bool {
    (crate::primes::is_prime(PRIME as nat) && crate::poly::all_distinct(
        crate::sharing::share_points(shs),
    )) ==> (forall|coeffs: Seq<u64>|
        (coeffs.len() <= shs.len() && (forall|i: int|
            0 <= i < shs.len() ==> poly_eval(
                coeffs,
                (#[trigger] shs[i]).point as int,
                PRIME as int,
            ) == ((shs[i].value as int) % (PRIME as int)))) ==> v as int == #[trigger] poly_eval(
            coeffs,
            0,
            PRIME as int,
        ))
}

/// Applying received-share batches is idempotent and insensitive to
/// grouping: merging one batch after another accumulates exactly the union
/// of their contents, so a sequence of applications whose cumulative
/// additions form the map `ab` leaves the process as one application of
/// `ab` would. Duplicate deliveries of the same entries change nothing.
pub proof fn lemma_merge_idempotent(base: Map<u8, u64>, a: Map<u8, u64>, b: Map<u8, u64>)
    ensures
        base.union_prefer_right(a).union_prefer_right(b) == base.union_prefer_right(
            a.union_prefer_right(b),
        ),
        base.union_prefer_right(a).union_prefer_right(a) == base.union_prefer_right(a),
{
    assert(base.union_prefer_right(a).union_prefer_right(b) =~= base.union_prefer_right(
        a.union_prefer_right(b),
    ));
    assert(base.union_prefer_right(a).union_prefer_right(a) =~= base.union_prefer_right(a));
}

/// Two share maps with the same contents are the same data: the entry
/// lists are canonical. Together with the merge law above, processes that
/// accumulated the same shares are identical, however the deliveries were
/// grouped or repeated.
pub proof fn lemma_contents_determine_map(m1: IdMap, m2: IdMap)
    requires
        m1.wf(),
        m2.wf(),
        m1.as_map() == m2.as_map(),
    ensures
        m1@ == m2@,
{
    crate::idmap::lemma_entries_canonical(m1@, m2@);
}

/// The progress a given peer may see of a process: the share set aside for
/// it, and the shares-sum when the process has one.
pub fn progress_for_peer(process: &AdditionProcess, peer_id: u8) -> (res: Option<
    AdditionProcessProgress,
>)
    requires
        process.wf(),
    ensures
        res is Some <==> process.shares_to_send.as_map().contains_key(peer_id),
        res matches Some(pr) ==> {
            &&& pr.share == process.shares_to_send.as_map()[peer_id]
            &&& pr.shares_sum == (match process.state {
                AdditionProcessState::AwaitingPeerShares => None::<u64>,
                AdditionProcessState::AwaitingPeerSharesSum { shares_sum } => Some(shares_sum),
                AdditionProcessState::Completed { shares_sum, .. } => Some(shares_sum),
            })
        },
{
    let share = match process.shares_to_send.get(peer_id) {
        Some(v) => v,
        None => {
            return None;
        },
    };
    let shares_sum = match process.state {
        AdditionProcessState::AwaitingPeerShares => None,
        AdditionProcessState::AwaitingPeerSharesSum { shares_sum } => Some(shares_sum),
        AdditionProcessState::Completed { shares_sum, .. } => Some(shares_sum),
    };
    Some(AdditionProcessProgress { share, shares_sum })
}

/// The final sum of a completed process.
pub fn completed_sum(process: &AdditionProcess) -> (res: Option<u64>)
    ensures
        res == (match process.state {
            AdditionProcessState::Completed { final_sum, .. } => Some(final_sum),
            _ => None::<u64>,
        }),
{
    match process.state {
        AdditionProcessState::Completed { final_sum, .. } => Some(final_sum),
        _ => None,
    }
}

} // verus!
