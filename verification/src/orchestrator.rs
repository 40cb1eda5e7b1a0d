//! The orchestrator's planning logic: which processes still need pulling,
//! which peers are missing from a process, how fetched progress becomes a
//! transition request, and the per-process failure budget.

use vstd::prelude::*;

use crate::idmap::IdMap;
use crate::process::{AdditionProcess, AdditionProcessProgress};

verus! {

/// The orchestrator gives up on a process after this many failed rounds.
pub const MAX_FAILURES: u8 = 5;

/// Peer ids that have not contributed yet, in peer order.
pub open spec fn missing_ids(peer_ids: Seq<u8>, m: Map<u8, u64>) -> Seq<u8>
    decreases peer_ids.len(),
{
    if peer_ids.len() == 0 {
        Seq::empty()
    } else {
        missing_ids(peer_ids.drop_last(), m) + (if !m.contains_key(peer_ids.last()) {
            seq![peer_ids.last()]
        } else {
            Seq::empty()
        })
    }
}

/// The peers whose contribution is still missing from the map.
pub fn missing_peers(peer_ids: &Vec<u8>, received: &IdMap) -> (res: Vec<u8>)
    requires
        received.wf(),
    ensures
        res@ == missing_ids(peer_ids@, received.as_map()),
{
    let mut res: Vec<u8> = Vec::new();
    let mut i: usize = 0;
    let n = peer_ids.len();
    proof {
        assert(peer_ids@.take(0) =~= Seq::<u8>::empty());
    }
    while i < n
        invariant
            received.wf(),
            i <= n,
            n == peer_ids@.len(),
            res@ == missing_ids(peer_ids@.take(i as int), received.as_map()),
        decreases n - i,
    {
        proof {
            assert(peer_ids@.take(i + 1).drop_last() =~= peer_ids@.take(i as int));
            assert(peer_ids@.take(i + 1).last() == peer_ids@[i as int]);
        }
        let id = peer_ids[i];
        if !received.contains_key(id) {
            res.push(id);
        }
        proof {
            assert(res@ =~= missing_ids(peer_ids@.take(i + 1), received.as_map()));
        }
        i = i + 1;
    }
    proof {
        assert(peer_ids@.take(n as int) =~= peer_ids@);
    }
    res
}

/// Builds the received-shares map from fetched progress, one entry per
/// peer.
pub fn collect_shares(progress: &Vec<(u8, AdditionProcessProgress)>) -> (res: IdMap)
    requires
        forall|a: int, b: int|
            0 <= a < b < progress@.len() ==> (#[trigger] progress@[a]).0
                != (#[trigger] progress@[b]).0,
    ensures
        res.wf(),
        forall|k: u8|
            res.as_map().contains_key(k) <==> exists|i: int|
                0 <= i < progress@.len() && (#[trigger] progress@[i]).0 == k,
        forall|i: int|
            0 <= i < progress@.len() ==> res.as_map()[(#[trigger] progress@[i]).0]
                == progress@[i].1.share,
{
    let mut res = IdMap::new();
    let mut i: usize = 0;
    let n = progress.len();
    while i < n
        invariant
            i <= n,
            n == progress@.len(),
            res.wf(),
            forall|a: int, b: int|
                0 <= a < b < progress@.len() ==> (#[trigger] progress@[a]).0
                    != (#[trigger] progress@[b]).0,
            forall|k: u8|
                res.as_map().contains_key(k) <==> exists|w: int|
                    0 <= w < i && (#[trigger] progress@[w]).0 == k,
            forall|w: int|
                0 <= w < i ==> res.as_map()[(#[trigger] progress@[w]).0]
                    == progress@[w].1.share,
        decreases n - i,
    {
        let e = progress[i];
        res.insert(e.0, e.1.share);
        proof {
            assert((progress@[i as int]).0 == e.0);
            assert forall|k: u8| res.as_map().contains_key(k) <==> exists|w: int|
                0 <= w < i + 1 && (#[trigger] progress@[w]).0 == k by {}
        }
        i = i + 1;
    }
    res
}

/// Builds the received-shares-sums map from fetched progress, keeping only
/// peers whose shares-sum is known.
pub fn collect_shares_sums(progress: &Vec<(u8, AdditionProcessProgress)>) -> (res: IdMap)
    requires
        forall|a: int, b: int|
            0 <= a < b < progress@.len() ==> (#[trigger] progress@[a]).0
                != (#[trigger] progress@[b]).0,
    ensures
        res.wf(),
        forall|k: u8|
            res.as_map().contains_key(k) <==> exists|i: int|
                0 <= i < progress@.len() && (#[trigger] progress@[i]).0 == k
                    && progress@[i].1.shares_sum is Some,
        forall|i: int|
            0 <= i < progress@.len() && (#[trigger] progress@[i]).1.shares_sum is Some
                ==> res.as_map()[progress@[i].0] == progress@[i].1.shares_sum->0,
{
    let mut res = IdMap::new();
    let mut i: usize = 0;
    let n = progress.len();
    while i < n
        invariant
            i <= n,
            n == progress@.len(),
            res.wf(),
            forall|a: int, b: int|
                0 <= a < b < progress@.len() ==> (#[trigger] progress@[a]).0
                    != (#[trigger] progress@[b]).0,
            forall|k: u8|
                res.as_map().contains_key(k) <==> exists|w: int|
                    0 <= w < i && (#[trigger] progress@[w]).0 == k && progress@[w].1.shares_sum
                        is Some,
            forall|w: int|
                0 <= w < i && (#[trigger] progress@[w]).1.shares_sum is Some ==> res.as_map()[
                    progress@[w].0] == progress@[w].1.shares_sum->0,
        decreases n - i,
    {
        let e = progress[i];
        match e.1.shares_sum {
            Some(v) => {
                res.insert(e.0, v);
                proof {
                    assert((progress@[i as int]).0 == e.0);
                }
            },
            None => {
                proof {
                    assert(!((progress@[i as int]).1.shares_sum is Some));
                }
            },
        }
        proof {
            assert forall|k: u8| res.as_map().contains_key(k) <==> exists|w: int|
                0 <= w < i + 1 && (#[trigger] progress@[w]).0 == k && progress@[w].1.shares_sum
                    is Some by {}
        }
        i = i + 1;
    }
    res
}

/// Per-process failure budget: a process that failed too many rounds is
/// skipped in future orchestrations.
pub struct FailureCounters {
    entries: Vec<(u128, u8)>,
}

impl View for FailureCounters {
    type V = Seq<(u128, u8)>;

    closed spec fn view(&self) -> Seq<(u128, u8)> {
        self.entries@
    }
}

impl FailureCounters {
    /// Well-formed: process ids unique.
    pub open spec fn wf(&self) -> bool {
        forall|a: int, b: int| 0 <= a < b < self@.len() ==> (#[trigger] self@[a]).0
            != (#[trigger] self@[b]).0
    }

    /// The recorded failure count, zero when absent.
    pub open spec fn spec_attempts(&self, id: u128) -> u8 {
        counters_value(self@, id)
    }

    /// No recorded failures.
    pub fn new() -> (res: FailureCounters)
        ensures
            res.wf(),
            res@ == Seq::<(u128, u8)>::empty(),
    {
        FailureCounters { entries: Vec::new() }
    }

    /// The failure count of one process.
    pub fn attempts_of(&self, id: u128) -> (res: u8)
        requires
            self.wf(),
        ensures
            res == self.spec_attempts(id),
    {
        let mut i: usize = 0;
        let n = self.entries.len();
        while i < n
            invariant
                self.wf(),
                i <= n,
                n == self@.len(),
                forall|j: int| 0 <= j < i ==> (#[trigger] self@[j]).0 != id,
            decreases n - i,
        {
            let e = self.entries[i];
            if e.0 == id {
                proof {
                    assert((self@[i as int]).0 == id);
                    let w = choose|w: int| 0 <= w < self@.len() && (#[trigger] self@[w]).0 == id;
                    if w != i {
                        assert(self@[w].0 != self@[i as int].0);
                    }
                }
                return e.1;
            }
            i = i + 1;
        }
        0
    }

    /// Whether the process is still within its budget.
    pub fn under_cap(&self, id: u128) -> (res: bool)
        requires
            self.wf(),
        ensures
            res == (self.spec_attempts(id) < MAX_FAILURES),
    {
        let a = self.attempts_of(id);
        a < MAX_FAILURES
    }

    /// Records one more failed round for the process; the count saturates.
    pub fn record_failure(&mut self, id: u128)
        requires
            old(self).wf(),
        ensures
            final(self).wf(),
            final(self).spec_attempts(id) == (if old(self).spec_attempts(id) < u8::MAX {
                (old(self).spec_attempts(id) + 1) as u8
            } else {
                u8::MAX
            }),
            forall|other: u128|
                other != id ==> final(self).spec_attempts(other) == old(self).spec_attempts(
                    other,
                ),
    {
        let ghost pre = self@;
        let mut i: usize = 0;
        let n = self.entries.len();
        while i < n
            invariant
                self.wf(),
                self@ == pre,
                pre == old(self)@,
                i <= n,
                n == self@.len(),
                forall|j: int| 0 <= j < i ==> (#[trigger] self@[j]).0 != id,
            decreases n - i,
        {
            let e = self.entries[i];
            if e.0 == id {
                let bumped: u8 = if e.1 < 255 {
                    e.1 + 1
                } else {
                    e.1
                };
                self.entries.set(i, (id, bumped));
                proof {
                    assert((pre[i as int]).0 == id);
                    assert(self@ =~= pre.update(i as int, (id, bumped)));
                    lemma_counters_update(pre, self@, i as int, id, bumped);
                }
                return ;
            }
            i = i + 1;
        }
        self.entries.push((id, 1));
        proof {
            assert(self@ =~= pre.push((id, 1u8)));
            lemma_counters_push(pre, self@, id, 1u8);
        }
    }
}

/// Helper facts: updating one entry changes exactly that process's count.
proof fn lemma_counters_update(pre: Seq<(u128, u8)>, post: Seq<(u128, u8)>, i: int, id: u128, v: u8)
    requires
        forall|a: int, b: int| 0 <= a < b < pre.len() ==> (#[trigger] pre[a]).0
            != (#[trigger] pre[b]).0,
        0 <= i < pre.len(),
        pre[i].0 == id,
        post == pre.update(i, (id, v)),
    ensures
        forall|a: int, b: int| 0 <= a < b < post.len() ==> (#[trigger] post[a]).0
            != (#[trigger] post[b]).0,
        counters_value(post, id) == v,
        forall|other: u128| other != id ==> counters_value(post, other) == counters_value(
            pre,
            other,
        ),
{
    assert forall|a: int, b: int| 0 <= a < b < post.len() implies (#[trigger] post[a]).0
        != (#[trigger] post[b]).0 by {
        assert(pre[a].0 != pre[b].0);
    }
    assert(post[i].0 == id);
    lemma_counters_unique_value(post, i, id);
    assert forall|other: u128| other != id implies counters_value(post, other) == counters_value(
        pre,
        other,
    ) by {
        if exists|w: int| 0 <= w < pre.len() && (#[trigger] pre[w]).0 == other {
            let w = choose|w: int| 0 <= w < pre.len() && (#[trigger] pre[w]).0 == other;
            assert(w != i);
            assert(post[w].0 == other);
            lemma_counters_unique_value(pre, w, other);
            lemma_counters_unique_value(post, w, other);
        } else {
            if exists|w: int| 0 <= w < post.len() && (#[trigger] post[w]).0 == other {
                let w = choose|w: int| 0 <= w < post.len() && (#[trigger] post[w]).0 == other;
                assert(w != i);
                assert(pre[w].0 == other);
            }
        }
    }
}

/// The count the counters hold for `id`, zero when absent.
pub open spec fn counters_value(s: Seq<(u128, u8)>, id: u128) -> u8 {
    if exists|i: int| 0 <= i < s.len() && (#[trigger] s[i]).0 == id {
        s[choose|i: int| 0 <= i < s.len() && (#[trigger] s[i]).0 == id].1
    } else {
        0
    }
}

/// With unique keys, the chosen index agrees with any witness.
proof fn lemma_counters_unique_value(s: Seq<(u128, u8)>, w: int, id: u128)
    requires
        forall|a: int, b: int| 0 <= a < b < s.len() ==> (#[trigger] s[a]).0 != (#[trigger] s[b]).0,
        0 <= w < s.len(),
        s[w].0 == id,
    ensures
        counters_value(s, id) == s[w].1,
{
    let c = choose|i: int| 0 <= i < s.len() && (#[trigger] s[i]).0 == id;
    if c != w {
        if c < w {
            assert(s[c].0 != s[w].0);
        } else {
            assert(s[w].0 != s[c].0);
        }
    }
}

/// Appending a new key changes exactly that process's count.
proof fn lemma_counters_push(pre: Seq<(u128, u8)>, post: Seq<(u128, u8)>, id: u128, v: u8)
    requires
        forall|a: int, b: int| 0 <= a < b < pre.len() ==> (#[trigger] pre[a]).0
            != (#[trigger] pre[b]).0,
        forall|j: int| 0 <= j < pre.len() ==> (#[trigger] pre[j]).0 != id,
        post == pre.push((id, v)),
    ensures
        forall|a: int, b: int| 0 <= a < b < post.len() ==> (#[trigger] post[a]).0
            != (#[trigger] post[b]).0,
        counters_value(post, id) == v,
        forall|other: u128| other != id ==> counters_value(post, other) == counters_value(
            pre,
            other,
        ),
{
    assert forall|a: int, b: int| 0 <= a < b < post.len() implies (#[trigger] post[a]).0
        != (#[trigger] post[b]).0 by {
        if b == post.len() - 1 {
            assert(post[a] == pre[a]);
        } else {
            assert(post[a] == pre[a]);
            assert(post[b] == pre[b]);
        }
    }
    assert(post[post.len() - 1].0 == id);
    lemma_counters_unique_value(post, post.len() - 1, id);
    assert forall|other: u128| other != id implies counters_value(post, other) == counters_value(
        pre,
        other,
    ) by {
        if exists|w: int| 0 <= w < pre.len() && (#[trigger] pre[w]).0 == other {
            let w = choose|w: int| 0 <= w < pre.len() && (#[trigger] pre[w]).0 == other;
            assert(post[w].0 == other);
            lemma_counters_unique_value(pre, w, other);
            lemma_counters_unique_value(post, w, other);
        } else {
            if exists|w: int| 0 <= w < post.len() && (#[trigger] post[w]).0 == other {
                let w = choose|w: int| 0 <= w < post.len() && (#[trigger] post[w]).0 == other;
                assert(w < pre.len());
                assert(pre[w].0 == other);
            }
        }
    }
}

/// The processes the next orchestration round works on: the ongoing ones
/// still within their failure budget, in order.
pub fn filter_by_budget(processes: Vec<AdditionProcess>, counters: &FailureCounters) -> (res: Vec<
    AdditionProcess,
>)
    requires
        counters.wf(),
        forall|i: int| 0 <= i < processes@.len() ==> (#[trigger] processes@[i]).wf(),
    ensures
        forall|k: int|
            0 <= k < res@.len() ==> (#[trigger] res@[k]).wf() && counters.spec_attempts(
                res@[k].id,
            ) < MAX_FAILURES && exists|i: int|
                0 <= i < processes@.len() && crate::process_repository::same_process(
                    res@[k],
                    #[trigger] processes@[i],
                ),
        forall|i: int|
            0 <= i < processes@.len() && counters.spec_attempts((#[trigger] processes@[i]).id)
                < MAX_FAILURES ==> exists|k: int|
                0 <= k < res@.len() && crate::process_repository::same_process(
                    #[trigger] res@[k],
                    processes@[i],
                ),
{
    let mut res: Vec<AdditionProcess> = Vec::new();
    let mut i: usize = 0;
    let n = processes.len();
    while i < n
        invariant
            counters.wf(),
            i <= n,
            n == processes@.len(),
            forall|w: int| 0 <= w < processes@.len() ==> (#[trigger] processes@[w]).wf(),
            forall|k: int|
                0 <= k < res@.len() ==> (#[trigger] res@[k]).wf() && counters.spec_attempts(
                    res@[k].id,
                ) < MAX_FAILURES && exists|w: int|
                    0 <= w < processes@.len() && crate::process_repository::same_process(
                        res@[k],
                        #[trigger] processes@[w],
                    ),
            forall|w: int|
                0 <= w < i && counters.spec_attempts((#[trigger] processes@[w]).id)
                    < MAX_FAILURES ==> exists|k: int|
                    0 <= k < res@.len() && crate::process_repository::same_process(
                        #[trigger] res@[k],
                        processes@[w],
                    ),
        decreases n - i,
    {
        let ghost res_before = res@;
        if counters.under_cap(processes[i].id) {
            let p = processes[i].clone();
            proof {
                assert(crate::process_repository::same_process(p, processes@[i as int]));
            }
            res.push(p);
            proof {
                assert forall|w: int|
                    0 <= w < i + 1 && counters.spec_attempts((#[trigger] processes@[w]).id)
                        < MAX_FAILURES implies exists|k: int|
                    0 <= k < res@.len() && crate::process_repository::same_process(
                        #[trigger] res@[k],
                        processes@[w],
                    ) by {
                    if w < i {
                        let k = choose|k: int|
                            0 <= k < res_before.len() && crate::process_repository::same_process(
                                #[trigger] res_before[k],
                                processes@[w],
                            );
                        assert(res@[k] == res_before[k]);
                        assert(crate::process_repository::same_process(res@[k], processes@[w]));
                    } else {
                        assert(crate::process_repository::same_process(
                            res@[res@.len() - 1],
                            processes@[w],
                        ));
                    }
                }
            }
        }
        i = i + 1;
    }
    res
}

} // verus!
