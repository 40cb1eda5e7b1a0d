use mpc_exploration::idmap::IdMap;
use mpc_exploration::orchestrator::{collect_shares, collect_shares_sums, missing_peers, FailureCounters};
use mpc_exploration::process::{
    progress_for_peer, completed_sum, AdditionProcess, AdditionProcessState, CreateProcessRequest,
    ReceiveSharesRequest, ReceiveSharesSumsRequest, PRIME,
};
use mpc_exploration::process_repository::InMemoryAdditionProcessRepository;
use mpc_exploration::reception::{
    ReceiveShareRequest, ReceiveShareRequestError, ReceiveSharesSumRequest, ReceptionProcessState,
};
use mpc_exploration::reception_repository::InMemoryAdditionRepository;

/// Drives three nodes through the whole protocol using only the pull
/// path: every node bootstraps its own process, then collects shares and
/// shares-sums from the others' progress.
fn run_pull_protocol(ids: [u8; 3]) -> (u64, Vec<u64>) {
    let pid: u128 = 7;
    let mut repos: Vec<InMemoryAdditionProcessRepository> = Vec::new();
    let mut inputs: Vec<u64> = Vec::new();

    for &my in ids.iter() {
        let others: Vec<u8> = ids.iter().cloned().filter(|&x| x != my).collect();
        let req = CreateProcessRequest::new(pid, my, &others).unwrap();
        inputs.push(req.input);
        let mut repo = InMemoryAdditionProcessRepository::new();
        repo.create_process(req).unwrap();
        repos.push(repo);
    }

    // shares phase: each node pulls its share from every other node
    for (i, &my) in ids.iter().enumerate() {
        let proc_i = repos[i].get_process(pid).unwrap();
        let others: Vec<u8> = ids.iter().cloned().filter(|&x| x != my).collect();
        let missing = missing_peers(&others, &proc_i.received_shares);
        let mut progress = Vec::new();
        for &j in missing.iter() {
            let jx = ids.iter().position(|&x| x == j).unwrap();
            let proc_j = repos[jx].get_process(pid).unwrap();
            let pr = progress_for_peer(&proc_j, my).unwrap();
            progress.push((j, pr));
        }
        let additions = collect_shares(&progress);
        let req = ReceiveSharesRequest::new(&proc_i, &additions, others.len()).unwrap();
        let updated = repos[i].receive_shares(&req).unwrap();
        assert!(matches!(
            updated.state,
            AdditionProcessState::AwaitingPeerSharesSum { .. }
        ));
    }

    // shares-sums phase
    let mut finals = Vec::new();
    for (i, &my) in ids.iter().enumerate() {
        let proc_i = repos[i].get_process(pid).unwrap();
        let others: Vec<u8> = ids.iter().cloned().filter(|&x| x != my).collect();
        let missing = missing_peers(&others, &proc_i.received_shares_sums);
        let mut progress = Vec::new();
        for &j in missing.iter() {
            let jx = ids.iter().position(|&x| x == j).unwrap();
            let proc_j = repos[jx].get_process(pid).unwrap();
            let pr = progress_for_peer(&proc_j, my).unwrap();
            assert!(pr.shares_sum.is_some());
            progress.push((j, pr));
        }
        let additions = collect_shares_sums(&progress);
        let req = ReceiveSharesSumsRequest::new(&proc_i, &additions, my, others.len()).unwrap();
        let updated = repos[i].receive_shares_sums(&req).unwrap();
        let done = completed_sum(&updated).unwrap();
        finals.push(done);
    }

    let expected =
        (inputs.iter().map(|&x| x as u128).sum::<u128>() % PRIME as u128) as u64;
    (expected, finals)
}

#[test]
fn test_pull_protocol_completes_with_correct_sum() {
    let (expected, finals) = run_pull_protocol([1, 2, 3]);
    for f in finals {
        assert_eq!(f, expected);
    }
}

#[test]
fn test_pull_protocol_many_processes() {
    // many distinct processes driven through the pull path; every one
    // completes with a consistent sum
    let ids = [1u8, 2, 3];
    for pid in 100u128..130u128 {
        let mut repos: Vec<InMemoryAdditionProcessRepository> = Vec::new();
        let mut inputs: Vec<u64> = Vec::new();
        for &my in ids.iter() {
            let others: Vec<u8> = ids.iter().cloned().filter(|&x| x != my).collect();
            let req = CreateProcessRequest::new(pid, my, &others).unwrap();
            inputs.push(req.input);
            let mut repo = InMemoryAdditionProcessRepository::new();
            repo.create_process(req).unwrap();
            repos.push(repo);
        }
        for (i, &my) in ids.iter().enumerate() {
            let proc_i = repos[i].get_process(pid).unwrap();
            let others: Vec<u8> = ids.iter().cloned().filter(|&x| x != my).collect();
            let missing = missing_peers(&others, &proc_i.received_shares);
            let mut progress = Vec::new();
            for &j in missing.iter() {
                let jx = ids.iter().position(|&x| x == j).unwrap();
                let proc_j = repos[jx].get_process(pid).unwrap();
                progress.push((j, progress_for_peer(&proc_j, my).unwrap()));
            }
            let additions = collect_shares(&progress);
            let req = ReceiveSharesRequest::new(&proc_i, &additions, others.len()).unwrap();
            repos[i].receive_shares(&req).unwrap();
        }
        let expected = (inputs.iter().map(|&x| x as u128).sum::<u128>() % PRIME as u128) as u64;
        for (i, &my) in ids.iter().enumerate() {
            let proc_i = repos[i].get_process(pid).unwrap();
            let others: Vec<u8> = ids.iter().cloned().filter(|&x| x != my).collect();
            let missing = missing_peers(&others, &proc_i.received_shares_sums);
            let mut progress = Vec::new();
            for &j in missing.iter() {
                let jx = ids.iter().position(|&x| x == j).unwrap();
                let proc_j = repos[jx].get_process(pid).unwrap();
                progress.push((j, progress_for_peer(&proc_j, my).unwrap()));
            }
            let additions = collect_shares_sums(&progress);
            let req =
                ReceiveSharesSumsRequest::new(&proc_i, &additions, my, others.len()).unwrap();
            let updated = repos[i].receive_shares_sums(&req).unwrap();
            assert_eq!(completed_sum(&updated).unwrap(), expected);
        }
    }
}

#[test]
fn test_receive_shares_idempotent_redelivery() {
    // delivering the same batch twice leaves the process unchanged
    let others = vec![2u8, 3u8];
    let req = CreateProcessRequest::new(11, 1, &others).unwrap();
    let mut repo = InMemoryAdditionProcessRepository::new();
    repo.create_process(req).unwrap();

    let mut additions = IdMap::new();
    additions.insert(2, 999);
    let p0 = repo.get_process(11).unwrap();
    let r1 = ReceiveSharesRequest::new(&p0, &additions, 2).unwrap();
    let after_first = repo.receive_shares(&r1).unwrap();

    let p1 = repo.get_process(11).unwrap();
    let r2 = ReceiveSharesRequest::new(&p1, &additions, 2).unwrap();
    let after_second = repo.receive_shares(&r2).unwrap();

    assert_eq!(after_first.received_shares, after_second.received_shares);
    assert_eq!(after_first.state, after_second.state);
}

#[test]
fn test_receive_shares_wrong_state() {
    let others = vec![2u8, 3u8];
    let req = CreateProcessRequest::new(12, 1, &others).unwrap();
    let mut repo = InMemoryAdditionProcessRepository::new();
    repo.create_process(req).unwrap();

    // complete the shares phase
    let mut additions = IdMap::new();
    additions.insert(2, 10);
    additions.insert(3, 20);
    let p0 = repo.get_process(12).unwrap();
    let r = ReceiveSharesRequest::new(&p0, &additions, 2).unwrap();
    assert!(r.computed_shares_sum.is_some());
    repo.receive_shares(&r).unwrap();

    // a further shares batch is refused by the domain, and a stale request
    // is refused by the store without touching it
    let p1 = repo.get_process(12).unwrap();
    assert!(ReceiveSharesRequest::new(&p1, &additions, 2).is_err());
    let stale = ReceiveSharesRequest {
        process_id: 12,
        received_shares: additions,
        computed_shares_sum: None,
    };
    assert!(repo.receive_shares(&stale).is_err());
    let p2 = repo.get_process(12).unwrap();
    assert_eq!(p1.state, p2.state);
    assert_eq!(p1.received_shares, p2.received_shares);
}

#[test]
fn test_shares_sum_formula() {
    let others = vec![2u8, 3u8];
    let req = CreateProcessRequest::new(13, 1, &others).unwrap();
    let own_share = req.own_share;
    let mut repo = InMemoryAdditionProcessRepository::new();
    repo.create_process(req).unwrap();

    let mut additions = IdMap::new();
    additions.insert(2, 10);
    additions.insert(3, 20);
    let p0 = repo.get_process(13).unwrap();
    let r = ReceiveSharesRequest::new(&p0, &additions, 2).unwrap();
    let expected = ((10u128 + 20 + own_share as u128) % PRIME as u128) as u64;
    assert_eq!(r.computed_shares_sum.unwrap(), expected);
}

#[test]
fn test_push_protocol_completes_with_correct_sum() {
    // the push path: every share and shares-sum is delivered one by one
    let ids = [1u8, 2, 3];
    let pid: u128 = 21;
    let mut repos: Vec<InMemoryAdditionRepository> = Vec::new();
    let mut inputs: Vec<u64> = Vec::new();

    for &my in ids.iter() {
        let others: Vec<u8> = ids.iter().cloned().filter(|&x| x != my).collect();
        let req = CreateProcessRequest::new(pid, my, &others).unwrap();
        inputs.push(req.input);
        let mut repo = InMemoryAdditionRepository::new(others.clone(), my);
        repo.create_process(req);
        repos.push(repo);
    }

    // deliver every share
    for (i, &my) in ids.iter().enumerate() {
        let others: Vec<u8> = ids.iter().cloned().filter(|&x| x != my).collect();
        for &from in others.iter() {
            let fx = ids.iter().position(|&x| x == from).unwrap();
            let sender = repos[fx].get_process(pid).unwrap();
            let value = sender.shares_to_send.get(my).unwrap();
            let existing = repos[i].get_process(pid).ok();
            let req = ReceiveShareRequest::new(pid, my, &others, from, value, existing.as_ref())
                .unwrap();
            match req {
                ReceiveShareRequest::ReceiveShare(q) => {
                    repos[i].receive_share(q).unwrap();
                }
                ReceiveShareRequest::ReceiveLastShare(q) => {
                    repos[i].receive_last_share(q).unwrap();
                }
                ReceiveShareRequest::InitializeProcess(q) => {
                    repos[i].receive_new_process_share(q);
                }
            }
        }
        let after = repos[i].get_process(pid).unwrap();
        assert!(matches!(
            after.state,
            ReceptionProcessState::AwaitingPeerSharesSum { .. }
        ));
    }

    // capture every node's shares-sum before any delivery completes a node
    let mut sums: Vec<u64> = Vec::new();
    for (i, _) in ids.iter().enumerate() {
        match repos[i].get_process(pid).unwrap().state {
            ReceptionProcessState::AwaitingPeerSharesSum { shares_sum } => sums.push(shares_sum),
            _ => unreachable!(),
        }
    }

    // deliver every shares-sum
    for (i, &my) in ids.iter().enumerate() {
        let others: Vec<u8> = ids.iter().cloned().filter(|&x| x != my).collect();
        for &from in others.iter() {
            let fx = ids.iter().position(|&x| x == from).unwrap();
            let value = sums[fx];
            let existing = repos[i].get_process(pid).ok();
            let req =
                ReceiveSharesSumRequest::new(pid, my, &others, from, value, existing.as_ref())
                    .unwrap();
            match req {
                ReceiveSharesSumRequest::ReceiveSharesSum(q) => {
                    repos[i].receive_shares_sum(q).unwrap();
                }
                ReceiveSharesSumRequest::ReceiveLastSharesSum(q) => {
                    repos[i].receive_last_shares_sum(q).unwrap();
                }
                ReceiveSharesSumRequest::InitializeProcess(q) => {
                    repos[i].receive_new_process_shares_sum(q);
                }
            }
        }
    }

    let expected =
        (inputs.iter().map(|&x| x as u128).sum::<u128>() % PRIME as u128) as u64;
    for (i, _) in ids.iter().enumerate() {
        match repos[i].get_process(pid).unwrap().state {
            ReceptionProcessState::Completed { final_sum } => assert_eq!(final_sum, expected),
            _ => panic!("node did not complete"),
        }
    }
}

#[test]
fn test_duplicate_share_rejected() {
    // the same share delivered twice is refused the second time and the
    // process is unchanged
    let ids = [1u8, 2, 3];
    let others = vec![2u8, 3];
    let pid: u128 = 31;
    let req = CreateProcessRequest::new(pid, 1, &others).unwrap();
    let mut repo = InMemoryAdditionRepository::new(others.clone(), 1);
    repo.create_process(req);

    let existing = repo.get_process(pid).ok();
    let req1 = ReceiveShareRequest::new(pid, 1, &others, 2, 555, existing.as_ref()).unwrap();
    match req1 {
        ReceiveShareRequest::ReceiveShare(q) => {
            repo.receive_share(q).unwrap();
        }
        _ => panic!("expected a plain share reception"),
    }
    let before = repo.get_process(pid).unwrap();

    let existing = repo.get_process(pid).ok();
    let res = ReceiveShareRequest::new(pid, 1, &others, 2, 555, existing.as_ref());
    match res {
        Err(ReceiveShareRequestError::ShareAlreadyReceived(p)) => assert_eq!(p, 2),
        _ => panic!("expected a duplicate-share rejection"),
    }
    let after = repo.get_process(pid).unwrap();
    assert_eq!(before.received_shares, after.received_shares);
    assert_eq!(before.state, after.state);
    let _ = ids;
}

#[test]
fn test_failure_counters_cap() {
    let mut c = FailureCounters::new();
    let id: u128 = 5;
    assert!(c.under_cap(id));
    for _ in 0..5 {
        c.record_failure(id);
    }
    assert_eq!(c.attempts_of(id), 5);
    assert!(!c.under_cap(id));
    assert!(c.under_cap(99));
}

#[test]
fn test_missing_peers() {
    let mut received = IdMap::new();
    received.insert(2, 1);
    let peer_ids = vec![2u8, 3, 4];
    let missing = missing_peers(&peer_ids, &received);
    assert_eq!(missing, vec![3, 4]);
}

#[test]
fn test_process_delete() {
    let others = vec![2u8, 3u8];
    let req = CreateProcessRequest::new(41, 1, &others).unwrap();
    let mut repo = InMemoryAdditionProcessRepository::new();
    repo.create_process(req).unwrap();
    assert!(repo.get_process(41).is_ok());
    repo.delete_process(41);
    assert!(repo.get_process(41).is_err());
}

#[test]
fn test_create_process_duplicate_id() {
    let others = vec![2u8, 3u8];
    let mut repo = InMemoryAdditionProcessRepository::new();
    let req1 = CreateProcessRequest::new(51, 1, &others).unwrap();
    repo.create_process(req1).unwrap();
    let req2 = CreateProcessRequest::new(51, 1, &others).unwrap();
    assert!(repo.create_process(req2).is_err());
}

fn sample_process() -> AdditionProcess {
    let others = vec![2u8, 3u8];
    let req = CreateProcessRequest::new(61, 1, &others).unwrap();
    let mut repo = InMemoryAdditionProcessRepository::new();
    repo.create_process(req).unwrap();
    repo.get_process(61).unwrap()
}

#[test]
fn test_progress_for_unknown_peer() {
    let p = sample_process();
    assert!(progress_for_peer(&p, 99).is_none());
    assert!(progress_for_peer(&p, 2).is_some());
}
