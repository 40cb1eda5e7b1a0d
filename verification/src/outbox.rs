//! The reliable outbox: transactionally enqueued outbound envelopes,
//! polled in schedule order by a dispatcher, retried with a delay, and
//! abandoned after a bounded number of attempts.

use vstd::prelude::*;

use crate::communication::{PeerEnvelope, PeerMessage, PeerRoutingError};
use crate::config::Peer;

verus! {

/// The retry cap: an item is never attempted more than this many times.
pub const MAX_ATTEMPTS: u8 = 5;

/// One queued outbound message.
pub struct OutboxItem {
    pub id: u128,
    pub envelope: PeerEnvelope,
    pub created_at: i64,
    pub scheduled_at: i64,
    pub attempts: u8,
}

impl Clone for OutboxItem {
    /// An exact copy of the item.
    fn clone(&self) -> (res: Self)
        ensures
            same_item(res, *self),
    {
        OutboxItem {
            id: self.id,
            envelope: self.envelope.clone(),
            created_at: self.created_at,
            scheduled_at: self.scheduled_at,
            attempts: self.attempts,
        }
    }
}

/// Two envelopes hold the same data.
pub open spec fn same_envelope(a: PeerEnvelope, b: PeerEnvelope) -> bool {
    &&& a.peer_id == b.peer_id
    &&& a.peer_url@ == b.peer_url@
    &&& a.process_id == b.process_id
    &&& a.payload == b.payload
}

/// Two items hold the same data.
pub open spec fn same_item(a: OutboxItem, b: OutboxItem) -> bool {
    &&& a.id == b.id
    &&& same_envelope(a.envelope, b.envelope)
    &&& a.created_at == b.created_at
    &&& a.scheduled_at == b.scheduled_at
    &&& a.attempts == b.attempts
}

/// Some stored item has this id.
pub open spec fn has_item(s: Seq<OutboxItem>, id: u128) -> bool {
    exists|i: int| 0 <= i < s.len() && (#[trigger] s[i]).id == id
}

/// How many stored items are ready at `now`.
pub open spec fn count_ready(s: Seq<OutboxItem>, now: i64) -> int
    decreases s.len(),
{
    if s.len() == 0 {
        0int
    } else {
        count_ready(s.drop_last(), now) + (if s.last().scheduled_at <= now {
            1int
        } else {
            0int
        })
    }
}

/// Removing an item with a different id keeps `y` present.
proof fn lemma_has_item_remove(s: Seq<OutboxItem>, i: int, y: u128)
    requires
        0 <= i < s.len(),
        has_item(s, y),
        s[i].id != y,
    ensures
        has_item(s.remove(i), y),
{
    let w = choose|w: int| 0 <= w < s.len() && (#[trigger] s[w]).id == y;
    if w < i {
        assert(s.remove(i)[w] == s[w]);
    } else {
        assert(s.remove(i)[w - 1] == s[w]);
    }
}

/// Some stored item holds the same data as `it`.
pub open spec fn contains_item(b: Seq<OutboxItem>, it: OutboxItem) -> bool {
    exists|j: int| 0 <= j < b.len() && same_item(it, #[trigger] b[j])
}

/// Every item of `a` also occurs in `b`.
pub open spec fn items_subset(a: Seq<OutboxItem>, b: Seq<OutboxItem>) -> bool {
    forall|k: int| 0 <= k < a.len() ==> #[trigger] contains_item(b, a[k])
}

/// Subset inclusion is reflexive.
proof fn lemma_items_subset_refl(a: Seq<OutboxItem>)
    ensures
        items_subset(a, a),
{
    assert forall|k: int| 0 <= k < a.len() implies #[trigger] contains_item(a, a[k]) by {
        assert(same_item(a[k], a[k]));
    }
}

/// Subset inclusion is transitive.
proof fn lemma_items_subset_trans(a: Seq<OutboxItem>, b: Seq<OutboxItem>, c: Seq<OutboxItem>)
    requires
        items_subset(a, b),
        items_subset(b, c),
    ensures
        items_subset(a, c),
{
    assert forall|k: int| 0 <= k < a.len() implies #[trigger] contains_item(c, a[k]) by {
        assert(contains_item(b, a[k]));
        let j1 = choose|j1: int| 0 <= j1 < b.len() && same_item(a[k], #[trigger] b[j1]);
        assert(contains_item(c, b[j1]));
        let j2 = choose|j2: int| 0 <= j2 < c.len() && same_item(b[j1], #[trigger] c[j2]);
        assert(same_item(a[k], c[j2]));
    }
}

/// Removing an element keeps the rest included.
proof fn lemma_items_subset_remove(s: Seq<OutboxItem>, i: int)
    requires
        0 <= i < s.len(),
    ensures
        items_subset(s.remove(i), s),
{
    let t = s.remove(i);
    assert forall|k: int| 0 <= k < t.len() implies #[trigger] contains_item(s, t[k]) by {
        if k < i {
            assert(t[k] == s[k]);
            assert(same_item(t[k], s[k]));
        } else {
            assert(t[k] == s[k + 1]);
            assert(same_item(t[k], s[k + 1]));
        }
    }
}

/// Errors of the outbox.
#[derive(Clone, Copy, PartialEq, Eq, Structural, Debug)]
pub enum OutboxError {
    /// An id to reschedule was not present.
    NotFound,
}

/// The schedule time after a delay, saturating at the far future.
pub open spec fn sched_after(now: i64, delay: i64) -> i64 {
    if now <= i64::MAX - delay {
        (now + delay) as i64
    } else {
        i64::MAX
    }
}

/// One more attempt, never past the cap.
pub open spec fn bump_attempts(a: u8) -> u8 {
    if a < MAX_ATTEMPTS {
        (a + 1) as u8
    } else {
        a
    }
}

/// The item as rescheduling leaves it: one more attempt and a new
/// schedule time; everything else untouched.
pub open spec fn bumped(it: OutboxItem, now: i64, delay: i64) -> OutboxItem {
    OutboxItem {
        id: it.id,
        envelope: it.envelope,
        created_at: it.created_at,
        scheduled_at: sched_after(now, delay),
        attempts: bump_attempts(it.attempts),
    }
}

/// The id occurs among the first `j` entries of the list.
pub open spec fn listed(ids: Seq<u128>, j: int, id: u128) -> bool {
    exists|m: int| 0 <= m < j && ids[m] == id
}

/// In-memory outbox with unique item ids and bounded attempts.
pub struct InMemoryOutboxRepository {
    items: Vec<OutboxItem>,
}

impl View for InMemoryOutboxRepository {
    type V = Seq<OutboxItem>;

    closed spec fn view(&self) -> Seq<OutboxItem> {
        self.items@
    }
}

impl InMemoryOutboxRepository {
    /// Well-formed: ids unique and every attempt count below the cap.
    pub open spec fn wf(&self) -> bool {
        &&& (forall|i: int, j: int|
            0 <= i < j < self@.len() ==> (#[trigger] self@[i]).id != (#[trigger] self@[j]).id)
        &&& (forall|i: int| 0 <= i < self@.len() ==> (#[trigger] self@[i]).attempts <= MAX_ATTEMPTS)
    }

    /// An empty outbox.
    pub fn new() -> (res: InMemoryOutboxRepository)
        ensures
            res.wf(),
            res@ == Seq::<OutboxItem>::empty(),
    {
        InMemoryOutboxRepository { items: Vec::new() }
    }

    /// Removes the item with this id, if present.
    fn take_by_id(&mut self, id: u128) -> (res: Option<OutboxItem>)
        requires
            old(self).wf(),
        ensures
            final(self).wf(),
            !has_item(final(self)@, id),
            res is Some <==> has_item(old(self)@, id),
            res matches Some(it) ==> it.id == id && exists|i: int|
                0 <= i < old(self)@.len() && same_item(it, #[trigger] old(self)@[i]),
            forall|y: u128|
                y != id && has_item(old(self)@, y) ==> has_item(final(self)@, y),
            items_subset(final(self)@, old(self)@),
    {
        let ghost pre = self@;
        let mut i: usize = 0;
        while i < self.items.len()
            invariant
                self.wf(),
                self@ == pre,
                pre == old(self)@,
                i <= self@.len(),
                forall|j: int| 0 <= j < i ==> (#[trigger] self@[j]).id != id,
            decreases self@.len() - i,
        {
            if self.items[i].id == id {
                let it = self.items[i].clone();
                self.items.remove(i);
                proof {
                    assert(self@ =~= pre.remove(i as int));
                    assert(pre[i as int].id == id);
                    assert(same_item(it, pre[i as int]));
                    assert forall|k: int| 0 <= k < self@.len() implies (
                    #[trigger] self@[k]).id != id by {
                        if k < i {
                            assert(self@[k] == pre[k]);
                        } else {
                            assert(self@[k] == pre[k + 1]);
                        }
                    }
                    assert forall|y: u128| y != id && has_item(pre, y) implies has_item(
                        self@,
                        y,
                    ) by {
                        lemma_has_item_remove(pre, i as int, y);
                    }
                    lemma_items_subset_remove(pre, i as int);
                }
                return Some(it);
            }
            i = i + 1;
        }
        proof {
            lemma_items_subset_refl(self@);
        }
        None
    }

    /// Enqueues one envelope per message at `now`: fresh id, no attempts,
    /// scheduled immediately. An id collision replaces the older item.
    pub fn enqueue_envelopes_at(&mut self, envelopes: Vec<PeerEnvelope>, now: i64) -> (res: Vec<
        OutboxItem,
    >)
        requires
            old(self).wf(),
        ensures
            final(self).wf(),
            res@.len() == envelopes@.len(),
            forall|k: int|
                0 <= k < res@.len() ==> {
                    &&& same_envelope((#[trigger] res@[k]).envelope, envelopes@[k])
                    &&& res@[k].created_at == now
                    &&& res@[k].scheduled_at == now
                    &&& res@[k].attempts == 0
                },
            forall|k: int|
                0 <= k < res@.len() ==> has_item(final(self)@, (#[trigger] res@[k]).id),
            forall|j: int|
                0 <= j < old(self)@.len() ==> has_item(final(self)@, (
                #[trigger] old(self)@[j]).id),
            forall|k: int|
                0 <= k < final(self)@.len() ==> contains_item(
                    old(self)@,
                    #[trigger] final(self)@[k],
                ) || (exists|m: int|
                    0 <= m < res@.len() && same_item(final(self)@[k], #[trigger] res@[m])),
    {
        let mut out: Vec<OutboxItem> = Vec::new();
        let mut i: usize = 0;
        let n = envelopes.len();
        proof {
            lemma_items_subset_refl(self@);
            assert forall|k: int| 0 <= k < self@.len() implies contains_item(
                old(self)@,
                #[trigger] self@[k],
            ) || (exists|m: int|
                0 <= m < out@.len() && same_item(self@[k], #[trigger] out@[m])) by {
                assert(contains_item(old(self)@, self@[k]));
            }
        }
        while i < n
            invariant
                self.wf(),
                i <= n,
                n == envelopes@.len(),
                out@.len() == i,
                forall|k: int|
                    0 <= k < i ==> {
                        &&& same_envelope((#[trigger] out@[k]).envelope, envelopes@[k])
                        &&& out@[k].created_at == now
                        &&& out@[k].scheduled_at == now
                        &&& out@[k].attempts == 0
                    },
                forall|k: int| 0 <= k < i ==> has_item(self@, (#[trigger] out@[k]).id),
                forall|j: int|
                    0 <= j < old(self)@.len() ==> has_item(self@, (
                    #[trigger] old(self)@[j]).id),
                forall|k: int|
                    0 <= k < self@.len() ==> contains_item(old(self)@, #[trigger] self@[k]) || (
                    exists|m: int| 0 <= m < out@.len() && same_item(self@[k], #[trigger] out@[m])),
            decreases n - i,
        {
            let env = envelopes[i].clone();
            let id = crate::effects::fresh_id();
            let item = OutboxItem {
                id,
                envelope: env,
                created_at: now,
                scheduled_at: now,
                attempts: 0,
            };
            let copy = item.clone();
            let ghost pre_iter = self@;
            let _discarded = self.take_by_id(id);
            let ghost mid = self@;
            self.items.push(item);
            proof {
                assert(self@ =~= mid.push(item));
                assert forall|a: int, b: int| 0 <= a < b < self@.len() implies (
                #[trigger] self@[a]).id != (#[trigger] self@[b]).id by {
                    if b == self@.len() - 1 {
                        assert(self@[a] == mid[a]);
                        assert(!has_item(mid, id));
                    } else {
                        assert(self@[a] == mid[a]);
                        assert(self@[b] == mid[b]);
                    }
                }
                assert(self@[self@.len() - 1].id == id);
                assert forall|k: int| 0 <= k < i + 1 implies has_item(
                    self@,
                    (#[trigger] out@.push(copy)[k]).id,
                ) by {
                    if k < i {
                        assert(out@.push(copy)[k] == out@[k]);
                        if out@[k].id == id {
                            assert(self@[self@.len() - 1].id == id);
                        } else {
                            assert(has_item(mid, out@[k].id));
                            let w = choose|w: int|
                                0 <= w < mid.len() && (#[trigger] mid[w]).id == out@[k].id;
                            assert(self@[w].id == out@[k].id);
                        }
                    } else {
                        assert(out@.push(copy)[k] == copy);
                        assert(self@[self@.len() - 1].id == copy.id);
                    }
                }
                // every old id is still present: removal touched only the
                // fresh id, which the push put back
                assert forall|j: int| 0 <= j < old(self)@.len() implies has_item(
                    self@,
                    (#[trigger] old(self)@[j]).id,
                ) by {
                    if old(self)@[j].id == id {
                        assert(self@[self@.len() - 1].id == id);
                    } else {
                        assert(has_item(mid, old(self)@[j].id));
                        let w = choose|w: int|
                            0 <= w < mid.len() && (#[trigger] mid[w]).id == old(self)@[j].id;
                        assert(self@[w].id == old(self)@[j].id);
                    }
                }
                // every stored item is an old one or one of the new ones
                assert forall|k: int| 0 <= k < self@.len() implies contains_item(
                    old(self)@,
                    #[trigger] self@[k],
                ) || (exists|m: int|
                    0 <= m < out@.push(copy).len() && same_item(
                        self@[k],
                        #[trigger] out@.push(copy)[m],
                    )) by {
                    if k == self@.len() - 1 {
                        assert(out@.push(copy)[out@.len() as int] == copy);
                        assert(same_item(self@[k], copy));
                    } else {
                        assert(self@[k] == mid[k]);
                        assert(contains_item(pre_iter, mid[k]));
                        let w = choose|w: int|
                            0 <= w < pre_iter.len() && same_item(mid[k], #[trigger] pre_iter[w]);
                        if contains_item(old(self)@, pre_iter[w]) {
                            let w2 = choose|w2: int|
                                0 <= w2 < old(self)@.len() && same_item(
                                    pre_iter[w],
                                    #[trigger] old(self)@[w2],
                                );
                            assert(same_item(self@[k], old(self)@[w2]));
                        } else {
                            let m0 = choose|m0: int|
                                0 <= m0 < out@.len() && same_item(
                                    pre_iter[w],
                                    #[trigger] out@[m0],
                                );
                            assert(out@.push(copy)[m0] == out@[m0]);
                            assert(same_item(self@[k], out@.push(copy)[m0]));
                        }
                    }
                }
            }
            out.push(copy);
            i = i + 1;
        }
        out
    }

    /// Enqueues at the current time.
    pub fn enqueue_envelopes(&mut self, envelopes: Vec<PeerEnvelope>) -> (res: Vec<OutboxItem>)
        requires
            old(self).wf(),
        ensures
            final(self).wf(),
            res@.len() == envelopes@.len(),
            forall|k: int|
                0 <= k < res@.len() ==> {
                    &&& same_envelope((#[trigger] res@[k]).envelope, envelopes@[k])
                    &&& res@[k].created_at == res@[k].scheduled_at
                    &&& res@[k].attempts == 0
                },
            forall|k: int|
                0 <= k < res@.len() ==> has_item(final(self)@, (#[trigger] res@[k]).id),
            forall|j: int|
                0 <= j < old(self)@.len() ==> has_item(final(self)@, (
                #[trigger] old(self)@[j]).id),
            forall|k: int|
                0 <= k < final(self)@.len() ==> contains_item(
                    old(self)@,
                    #[trigger] final(self)@[k],
                ) || (exists|m: int|
                    0 <= m < res@.len() && same_item(final(self)@[k], #[trigger] res@[m])),
    {
        let now = crate::effects::now_millis();
        self.enqueue_envelopes_at(envelopes, now)
    }

    /// Items ready at `now`, in ascending schedule order, at most `limit`.
    pub fn ready_to_send_at(&self, limit: usize, now: i64) -> (res: Vec<OutboxItem>)
        requires
            self.wf(),
        ensures
            res@.len() <= limit,
            res@.len() == (if count_ready(self@, now) <= limit {
                count_ready(self@, now)
            } else {
                limit as int
            }),
            forall|k: int|
                0 <= k < res@.len() ==> (#[trigger] res@[k]).scheduled_at <= now && exists|
                    i: int,
                | 0 <= i < self@.len() && same_item(res@[k], #[trigger] self@[i]),
            forall|a: int, b: int|
                0 <= a < b < res@.len() ==> (#[trigger] res@[a]).scheduled_at
                    <= (#[trigger] res@[b]).scheduled_at,
    {
        let ghost store = self@;
        let mut elig: Vec<OutboxItem> = Vec::new();
        let mut i: usize = 0;
        let n = self.items.len();
        proof {
            assert(store.take(0) =~= Seq::<OutboxItem>::empty());
        }
        while i < n
            invariant
                self.wf(),
                store == self@,
                n == store.len(),
                i <= n,
                elig@.len() == count_ready(store.take(i as int), now),
                elig@.len() <= i,
                forall|k: int|
                    0 <= k < elig@.len() ==> (#[trigger] elig@[k]).scheduled_at <= now && exists|
                        w: int,
                    | 0 <= w < store.len() && same_item(elig@[k], #[trigger] store[w]),
            decreases n - i,
        {
            proof {
                assert(store.take(i + 1).drop_last() =~= store.take(i as int));
                assert(store.take(i + 1).last() == store[i as int]);
            }
            if self.items[i].scheduled_at <= now {
                let it = self.items[i].clone();
                proof {
                    assert(same_item(it, store[i as int]));
                }
                elig.push(it);
            }
            i = i + 1;
        }
        proof {
            assert(store.take(n as int) =~= store);
        }
        // insertion sort by schedule time
        let mut v = elig;
        let len = v.len();
        if len >= 1 {
            let mut s: usize = 1;
            while s < len
                invariant
                    1 <= s <= len,
                    len == v@.len(),
                    forall|k: int|
                        0 <= k < v@.len() ==> (#[trigger] v@[k]).scheduled_at <= now && exists|
                            w: int,
                        | 0 <= w < store.len() && same_item(v@[k], #[trigger] store[w]),
                    forall|a: int, b: int|
                        0 <= a < b < s ==> (#[trigger] v@[a]).scheduled_at
                            <= (#[trigger] v@[b]).scheduled_at,
                decreases len - s,
            {
                let mut j: usize = s;
                while j > 0 && v[j - 1].scheduled_at > v[j].scheduled_at
                    invariant
                        len == v@.len(),
                        s < len,
                        j <= s,
                        forall|k: int|
                            0 <= k < v@.len() ==> (#[trigger] v@[k]).scheduled_at <= now
                                && exists|w: int|
                                0 <= w < store.len() && same_item(v@[k], #[trigger] store[w]),
                        forall|a: int, b: int|
                            0 <= a < b <= s && b != j ==> (#[trigger] v@[a]).scheduled_at
                                <= (#[trigger] v@[b]).scheduled_at,
                        j < s ==> v@[j as int].scheduled_at <= v@[j + 1].scheduled_at,
                    decreases j,
                {
                    let x = v[j - 1].clone();
                    let y = v[j].clone();
                    proof {
                        assert(same_item(x, v@[j - 1]));
                        assert(same_item(y, v@[j as int]));
                    }
                    let ghost before = v@;
                    v.set(j - 1, y);
                    v.set(j, x);
                    proof {
                        assert forall|a: int, b: int|
                            0 <= a < b <= s && b != j - 1 implies (
                        #[trigger] v@[a]).scheduled_at <= (#[trigger] v@[b]).scheduled_at by {
                            if a == j - 1 && b == j {
                            } else if a == j - 1 {
                                assert(v@[a].scheduled_at == before[j as int].scheduled_at);
                                assert(before[j as int].scheduled_at < before[j
                                    - 1].scheduled_at);
                                if b > j {
                                    assert(before[j - 1].scheduled_at
                                        <= before[b].scheduled_at);
                                }
                            } else if a == j {
                                assert(v@[a].scheduled_at == before[j - 1].scheduled_at);
                                if b > j {
                                    assert(before[j - 1].scheduled_at
                                        <= before[b].scheduled_at);
                                }
                            } else if b == j {
                                assert(v@[b].scheduled_at == before[j - 1].scheduled_at);
                                assert(v@[a].scheduled_at == before[a].scheduled_at);
                            } else {
                                assert(v@[a].scheduled_at == before[a].scheduled_at);
                                assert(v@[b].scheduled_at == before[b].scheduled_at);
                            }
                        }
                    }
                    j = j - 1;
                }
                proof {
                    assert forall|a: int, b: int|
                        0 <= a < b <= s implies (#[trigger] v@[a]).scheduled_at
                        <= (#[trigger] v@[b]).scheduled_at by {
                        if b == j {
                            if j > 0 {
                                assert(v@[j - 1].scheduled_at <= v@[j as int].scheduled_at);
                                if a < j - 1 {
                                    assert(v@[a].scheduled_at <= v@[j - 1].scheduled_at);
                                }
                            }
                        } else if a == j && j < s {
                            assert(v@[j as int].scheduled_at <= v@[j + 1].scheduled_at);
                            if b > j + 1 {
                                assert(v@[j + 1].scheduled_at <= v@[b].scheduled_at);
                            }
                        }
                    }
                }
                s = s + 1;
            }
        }
        // truncate to the limit
        let mut res: Vec<OutboxItem> = Vec::new();
        let mut t: usize = 0;
        let keep = if len <= limit {
            len
        } else {
            limit
        };
        while t < keep
            invariant
                keep <= len,
                len == v@.len(),
                t <= keep,
                res@.len() == t,
                forall|k: int| 0 <= k < t ==> same_item(#[trigger] res@[k], v@[k]),
                forall|k: int|
                    0 <= k < v@.len() ==> (#[trigger] v@[k]).scheduled_at <= now && exists|
                        w: int,
                    | 0 <= w < store.len() && same_item(v@[k], #[trigger] store[w]),
                forall|a: int, b: int|
                    0 <= a < b < len ==> (#[trigger] v@[a]).scheduled_at
                        <= (#[trigger] v@[b]).scheduled_at,
            decreases keep - t,
        {
            let it = v[t].clone();
            res.push(it);
            t = t + 1;
        }
        proof {
            assert forall|k: int| 0 <= k < res@.len() implies (
            #[trigger] res@[k]).scheduled_at <= now && exists|w: int|
                0 <= w < store.len() && same_item(res@[k], #[trigger] store[w]) by {
                assert(same_item(res@[k], v@[k]));
                let w = choose|w: int|
                    0 <= w < store.len() && same_item(#[trigger] v@[k], store[w]);
                assert(same_item(res@[k], store[w]));
            }
        }
        res
    }

    /// Items ready now, in ascending schedule order, at most `limit`.
    pub fn get_items_ready_to_send(&self, limit: usize) -> (res: Vec<OutboxItem>)
        requires
            self.wf(),
        ensures
            res@.len() <= limit,
            forall|k: int|
                0 <= k < res@.len() ==> exists|i: int|
                    0 <= i < self@.len() && same_item(#[trigger] res@[k], self@[i]),
            forall|a: int, b: int|
                0 <= a < b < res@.len() ==> (#[trigger] res@[a]).scheduled_at
                    <= (#[trigger] res@[b]).scheduled_at,
    {
        let now = crate::effects::now_millis();
        self.ready_to_send_at(limit, now)
    }

    /// Removes the given ids, returning the items that were present;
    /// absent ids are skipped silently.
    pub fn dequeue_envelopes(&mut self, ids: &Vec<u128>) -> (res: Vec<OutboxItem>)
        requires
            old(self).wf(),
        ensures
            final(self).wf(),
            forall|k: int|
                0 <= k < ids@.len() ==> !has_item(final(self)@, #[trigger] ids@[k]),
            forall|k: int|
                0 <= k < res@.len() ==> listed(ids@, ids@.len() as int, (
                #[trigger] res@[k]).id),
            forall|m: int|
                0 <= m < ids@.len() && has_item(old(self)@, #[trigger] ids@[m]) ==> exists|
                    k: int,
                | 0 <= k < res@.len() && (#[trigger] res@[k]).id == ids@[m],
            items_subset(res@, old(self)@),
            items_subset(final(self)@, old(self)@),
    {
        let mut res: Vec<OutboxItem> = Vec::new();
        let mut i: usize = 0;
        let n = ids.len();
        proof {
            lemma_items_subset_refl(self@);
        }
        while i < n
            invariant
                self.wf(),
                i <= n,
                n == ids@.len(),
                forall|k: int| 0 <= k < i ==> !has_item(self@, #[trigger] ids@[k]),
                forall|k: int|
                    0 <= k < res@.len() ==> listed(ids@, i as int, (#[trigger] res@[k]).id),
                forall|y: u128|
                    has_item(old(self)@, y) && !has_item(self@, y) ==> exists|k: int|
                        0 <= k < res@.len() && (#[trigger] res@[k]).id == y,
                items_subset(res@, old(self)@),
                items_subset(self@, old(self)@),
            decreases n - i,
        {
            let ghost mid = self@;
            let ghost res_before = res@;
            let taken = self.take_by_id(ids[i]);
            proof {
                lemma_items_subset_trans(self@, mid, old(self)@);
                assert forall|k: int| 0 <= k < i + 1 implies !has_item(
                    self@,
                    #[trigger] ids@[k],
                ) by {
                    if k < i {
                        if has_item(self@, ids@[k]) {
                            let w = choose|w: int|
                                0 <= w < self@.len() && (#[trigger] self@[w]).id == ids@[k];
                            assert(contains_item(mid, self@[w]));
                            let j = choose|j: int|
                                0 <= j < mid.len() && same_item(self@[w], #[trigger] mid[j]);
                            assert(mid[j].id == ids@[k]);
                        }
                    }
                }
            }
            match taken {
                Some(it) => {
                    proof {
                        assert(it.id == ids@[i as int]);
                    }
                    res.push(it);
                    proof {
                        assert forall|k: int| 0 <= k < res@.len() implies listed(
                            ids@,
                            i + 1,
                            (#[trigger] res@[k]).id,
                        ) by {
                            if k < res_before.len() {
                                assert(res@[k] == res_before[k]);
                                let w = choose|w: int|
                                    0 <= w < i && ids@[w] == res_before[k].id;
                                assert(ids@[w] == res@[k].id);
                            } else {
                                assert(res@[k].id == ids@[i as int]);
                            }
                        }
                        assert forall|k: int| 0 <= k < res@.len() implies
                            #[trigger] contains_item(old(self)@, res@[k]) by {
                            if k < res_before.len() {
                                assert(res@[k] == res_before[k]);
                                assert(contains_item(old(self)@, res_before[k]));
                            } else {
                                assert(res@[k] == it);
                                let w = choose|w: int|
                                    0 <= w < mid.len() && same_item(it, #[trigger] mid[w]);
                                assert(contains_item(old(self)@, mid[w]));
                                let j = choose|j: int|
                                    0 <= j < old(self)@.len() && same_item(
                                        mid[w],
                                        #[trigger] old(self)@[j],
                                    );
                                assert(same_item(res@[k], old(self)@[j]));
                            }
                        }
                    }
                },
                None => {
                    proof {
                        assert forall|k: int| 0 <= k < res@.len() implies listed(
                            ids@,
                            i + 1,
                            (#[trigger] res@[k]).id,
                        ) by {
                            let w = choose|w: int| 0 <= w < i && ids@[w] == res@[k].id;
                            assert(ids@[w] == res@[k].id);
                        }
                    }
                },
            }
            proof {
                assert forall|y: u128| has_item(old(self)@, y) && !has_item(self@, y) implies
                    exists|k: int| 0 <= k < res@.len() && (#[trigger] res@[k]).id == y by {
                    if y == ids@[i as int] {
                        assert(res@[res@.len() - 1].id == y || exists|k: int|
                            0 <= k < res_before.len() && (#[trigger] res_before[k]).id == y);
                        if !(res@.len() > res_before.len() && res@[res@.len() - 1].id == y) {
                            let k = choose|k: int|
                                0 <= k < res_before.len() && (#[trigger] res_before[k]).id == y;
                            assert(res@[k].id == y);
                        }
                    } else {
                        if has_item(mid, y) {
                            assert(has_item(self@, y));
                        } else {
                            let k = choose|k: int|
                                0 <= k < res_before.len() && (#[trigger] res_before[k]).id == y;
                            assert(res@[k].id == y);
                        }
                    }
                }
            }
            i = i + 1;
        }
        res
    }

    /// Reschedules the given ids `delay` milliseconds after `now`: each
    /// listed item gains one attempt (never past the cap) and the new
    /// schedule time; everything else is untouched. Succeeds exactly when
    /// every id is present; the first absent id fails the call, leaving the
    /// ids before it already updated.
    pub fn re_enqueue_envelopes_at(&mut self, ids: &Vec<u128>, delay: i64, now: i64) -> (res:
        Result<(), OutboxError>)
        requires
            old(self).wf(),
            delay >= 0,
            forall|a: int, b: int| 0 <= a < b < ids@.len() ==> ids@[a] != ids@[b],
        ensures
            final(self).wf(),
            final(self)@.len() == old(self)@.len(),
            res is Ok <==> (forall|k: int|
                0 <= k < ids@.len() ==> has_item(old(self)@, #[trigger] ids@[k])),
            res is Ok ==> (forall|k: int|
                0 <= k < final(self)@.len() ==> #[trigger] final(self)@[k] == (if listed(
                    ids@,
                    ids@.len() as int,
                    old(self)@[k].id,
                ) {
                    bumped(old(self)@[k], now, delay)
                } else {
                    old(self)@[k]
                })),
            res is Err ==> exists|j: int|
                {
                    &&& 0 <= j < ids@.len()
                    &&& !has_item(old(self)@, #[trigger] ids@[j])
                    &&& (forall|m: int| 0 <= m < j ==> has_item(old(self)@, #[trigger] ids@[m]))
                    &&& (forall|k: int|
                        0 <= k < final(self)@.len() ==> #[trigger] final(self)@[k] == (if
                        listed(ids@, j, old(self)@[k].id) {
                            bumped(old(self)@[k], now, delay)
                        } else {
                            old(self)@[k]
                        }))
                },
    {
        let sched: i64 = if now <= i64::MAX - delay {
            now + delay
        } else {
            i64::MAX
        };
        let mut i: usize = 0;
        let n = ids.len();
        while i < n
            invariant
                self.wf(),
                i <= n,
                n == ids@.len(),
                delay >= 0,
                sched == sched_after(now, delay),
                forall|a: int, b: int| 0 <= a < b < ids@.len() ==> ids@[a] != ids@[b],
                self@.len() == old(self)@.len(),
                forall|k: int| 0 <= k < self@.len() ==> (#[trigger] self@[k]).id == old(
                    self,
                )@[k].id,
                forall|k: int|
                    0 <= k < self@.len() ==> #[trigger] self@[k] == (if listed(
                        ids@,
                        i as int,
                        old(self)@[k].id,
                    ) {
                        bumped(old(self)@[k], now, delay)
                    } else {
                        old(self)@[k]
                    }),
                forall|m: int| 0 <= m < i ==> has_item(old(self)@, #[trigger] ids@[m]),
            decreases n - i,
        {
            let id = ids[i];
            let mut j: usize = 0;
            let m = self.items.len();
            while j < m && self.items[j].id != id
                invariant
                    self.wf(),
                    j <= m,
                    m == self@.len(),
                    forall|k: int| 0 <= k < j ==> (#[trigger] self@[k]).id != id,
                decreases m - j,
            {
                j = j + 1;
            }
            if j >= m {
                proof {
                    assert forall|k: int| 0 <= k < old(self)@.len() implies (
                    #[trigger] old(self)@[k]).id != id by {
                        assert(self@[k].id == old(self)@[k].id);
                    }
                }
                return Err(OutboxError::NotFound);
            }
            let ghost mid = self@;
            let item = self.items.remove(j);
            let new_attempts: u8 = if item.attempts < MAX_ATTEMPTS {
                item.attempts + 1
            } else {
                item.attempts
            };
            let updated = OutboxItem {
                id: item.id,
                envelope: item.envelope,
                created_at: item.created_at,
                scheduled_at: sched,
                attempts: new_attempts,
            };
            self.items.insert(j, updated);
            proof {
                assert(self@ =~= mid.update(j as int, updated));
                // the target had not been touched yet: ids are distinct
                assert(!listed(ids@, i as int, old(self)@[j as int].id)) by {
                    if listed(ids@, i as int, old(self)@[j as int].id) {
                        let w = choose|w: int|
                            0 <= w < i && ids@[w] == old(self)@[j as int].id;
                        assert(ids@[w] == ids@[i as int]);
                    }
                }
                assert(mid[j as int] == old(self)@[j as int]);
                assert(updated == bumped(old(self)@[j as int], now, delay));
                assert(has_item(old(self)@, id)) by {
                    assert(old(self)@[j as int].id == id);
                }
                assert forall|k: int| 0 <= k < self@.len() implies #[trigger] self@[k] == (if
                listed(ids@, i + 1, old(self)@[k].id) {
                    bumped(old(self)@[k], now, delay)
                } else {
                    old(self)@[k]
                }) by {
                    if k == j {
                        assert(ids@[i as int] == old(self)@[k].id);
                        assert(listed(ids@, i + 1, old(self)@[k].id));
                    } else {
                        assert(self@[k] == mid[k]);
                        // the id at k is not the one being rescheduled
                        assert(mid[k].id == old(self)@[k].id);
                        assert(mid[j as int].id == old(self)@[j as int].id);
                        assert(old(self)@[k].id != id);
                        assert(listed(ids@, i + 1, old(self)@[k].id) == listed(
                            ids@,
                            i as int,
                            old(self)@[k].id,
                        )) by {
                            if listed(ids@, i + 1, old(self)@[k].id) && !listed(
                                ids@,
                                i as int,
                                old(self)@[k].id,
                            ) {
                                let w = choose|w: int|
                                    0 <= w < i + 1 && ids@[w] == old(self)@[k].id;
                                assert(w == i);
                            }
                        }
                    }
                }
                assert forall|a: int, b: int| 0 <= a < b < self@.len() implies (
                #[trigger] self@[a]).id != (#[trigger] self@[b]).id by {
                    assert(mid[a].id != mid[b].id);
                }
            }
            i = i + 1;
        }
        Ok(())
    }

    /// Reschedules relative to the current time: listed items gain one
    /// attempt (never past the cap), everything else is untouched.
    pub fn re_enqueue_envelopes(&mut self, ids: &Vec<u128>, delay: i64) -> (res: Result<
        (),
        OutboxError,
    >)
        requires
            old(self).wf(),
            delay >= 0,
            forall|a: int, b: int| 0 <= a < b < ids@.len() ==> ids@[a] != ids@[b],
        ensures
            final(self).wf(),
            final(self)@.len() == old(self)@.len(),
            res is Ok <==> (forall|k: int|
                0 <= k < ids@.len() ==> has_item(old(self)@, #[trigger] ids@[k])),
            res is Ok ==> (forall|k: int|
                0 <= k < final(self)@.len() ==> (if listed(
                    ids@,
                    ids@.len() as int,
                    (#[trigger] old(self)@[k]).id,
                ) {
                    &&& final(self)@[k].id == old(self)@[k].id
                    &&& final(self)@[k].envelope == old(self)@[k].envelope
                    &&& final(self)@[k].created_at == old(self)@[k].created_at
                    &&& final(self)@[k].attempts == bump_attempts(old(self)@[k].attempts)
                } else {
                    final(self)@[k] == old(self)@[k]
                })),
    {
        let now = crate::effects::now_millis();
        self.re_enqueue_envelopes_at(ids, delay, now)
    }
}

/// The outcome split of one dispatch batch.
pub struct DispatchPartition {
    pub success: Vec<u128>,
    pub retried: Vec<u128>,
    pub abandoned: Vec<u128>,
}

/// Ids of successfully delivered items, in batch order.
pub open spec fn success_ids(extracts: Seq<(u128, u8)>, results: Seq<bool>) -> Seq<u128>
    decreases extracts.len(),
{
    if extracts.len() == 0 || results.len() < extracts.len() {
        Seq::empty()
    } else {
        success_ids(extracts.drop_last(), results.take(extracts.len() - 1)) + (if results[
            extracts.len() - 1] {
            seq![extracts.last().0]
        } else {
            Seq::empty()
        })
    }
}

/// Ids of failed items still below the attempt cap, in batch order.
pub open spec fn retried_ids(extracts: Seq<(u128, u8)>, results: Seq<bool>) -> Seq<u128>
    decreases extracts.len(),
{
    if extracts.len() == 0 || results.len() < extracts.len() {
        Seq::empty()
    } else {
        retried_ids(extracts.drop_last(), results.take(extracts.len() - 1)) + (if !results[
            extracts.len() - 1] && extracts.last().1 < MAX_ATTEMPTS {
            seq![extracts.last().0]
        } else {
            Seq::empty()
        })
    }
}

/// Ids of failed items at the attempt cap, in batch order.
pub open spec fn abandoned_ids(extracts: Seq<(u128, u8)>, results: Seq<bool>) -> Seq<u128>
    decreases extracts.len(),
{
    if extracts.len() == 0 || results.len() < extracts.len() {
        Seq::empty()
    } else {
        abandoned_ids(extracts.drop_last(), results.take(extracts.len() - 1)) + (if !results[
            extracts.len() - 1] && extracts.last().1 >= MAX_ATTEMPTS {
            seq![extracts.last().0]
        } else {
            Seq::empty()
        })
    }
}

/// Splits one batch's delivery outcomes: successes are dequeued, failures
/// below the attempt cap are retried, the rest are abandoned.
pub fn partition_dispatch_results(extracts: &Vec<(u128, u8)>, results: &Vec<bool>) -> (res:
    DispatchPartition)
    requires
        extracts@.len() == results@.len(),
    ensures
        res.success@ == success_ids(extracts@, results@),
        res.retried@ == retried_ids(extracts@, results@),
        res.abandoned@ == abandoned_ids(extracts@, results@),
{
    let mut success: Vec<u128> = Vec::new();
    let mut retried: Vec<u128> = Vec::new();
    let mut abandoned: Vec<u128> = Vec::new();
    let mut i: usize = 0;
    let n = extracts.len();
    proof {
        assert(extracts@.take(0) =~= Seq::<(u128, u8)>::empty());
        assert(results@.take(0) =~= Seq::<bool>::empty());
    }
    while i < n
        invariant
            i <= n,
            n == extracts@.len(),
            n == results@.len(),
            success@ == success_ids(extracts@.take(i as int), results@.take(i as int)),
            retried@ == retried_ids(extracts@.take(i as int), results@.take(i as int)),
            abandoned@ == abandoned_ids(extracts@.take(i as int), results@.take(i as int)),
        decreases n - i,
    {
        let e = extracts[i];
        let ok = results[i];
        proof {
            let ex1 = extracts@.take(i + 1);
            let rs1 = results@.take(i + 1);
            assert(ex1.drop_last() =~= extracts@.take(i as int));
            assert(rs1.take(ex1.len() - 1) =~= results@.take(i as int));
            assert(ex1.last() == extracts@[i as int]);
            assert(rs1[ex1.len() - 1] == results@[i as int]);
        }
        if ok {
            success.push(e.0);
        } else {
            if e.1 >= MAX_ATTEMPTS {
                abandoned.push(e.0);
            } else {
                retried.push(e.0);
            }
        }
        proof {
            let ex1 = extracts@.take(i + 1);
            let rs1 = results@.take(i + 1);
            assert(success@ =~= success_ids(ex1, rs1));
            assert(retried@ =~= retried_ids(ex1, rs1));
            assert(abandoned@ =~= abandoned_ids(ex1, rs1));
        }
        i = i + 1;
    }
    proof {
        assert(extracts@.take(n as int) =~= extracts@);
        assert(results@.take(n as int) =~= results@);
    }
    DispatchPartition { success, retried, abandoned }
}

/// Routes messages through the outbox: resolves each one against the peer
/// set and enqueues the envelopes.
pub struct OutboxPeerMessagesSender {
    pub server_peer_id: u8,
    pub peers: Vec<Peer>,
    pub outbox: InMemoryOutboxRepository,
}

impl OutboxPeerMessagesSender {
    /// A sender over an empty outbox.
    pub fn new(server_peer_id: u8, peers: Vec<Peer>) -> (res: OutboxPeerMessagesSender)
        ensures
            res.outbox.wf(),
            res.outbox@ == Seq::<OutboxItem>::empty(),
            res.server_peer_id == server_peer_id,
            res.peers@ == peers@,
    {
        OutboxPeerMessagesSender { server_peer_id, peers, outbox: InMemoryOutboxRepository::new() }
    }

    /// Resolves the messages to envelopes and enqueues them; a message to
    /// the node itself or to an unknown peer fails the whole batch before
    /// anything is enqueued.
    pub fn send_messages(&mut self, messages: Vec<PeerMessage>) -> (res: Result<
        Vec<OutboxItem>,
        PeerRoutingError,
    >)
        requires
            old(self).outbox.wf(),
        ensures
            final(self).outbox.wf(),
            final(self).server_peer_id == old(self).server_peer_id,
            final(self).peers@ == old(self).peers@,
            res is Ok <==> (forall|k: int|
                0 <= k < messages@.len() ==> (#[trigger] messages@[k]).peer_id != old(
                    self,
                ).server_peer_id && crate::communication::known_peer(
                    old(self).peers@,
                    messages@[k].peer_id,
                )),
            res is Err ==> final(self).outbox@ == old(self).outbox@,
            res matches Ok(items) ==> {
                &&& items@.len() == messages@.len()
                &&& forall|k: int|
                    0 <= k < items@.len() ==> {
                        &&& (#[trigger] items@[k]).envelope.peer_id == messages@[k].peer_id
                        &&& items@[k].envelope.process_id == messages@[k].process_id
                        &&& items@[k].envelope.payload == messages@[k].payload
                        &&& items@[k].attempts == 0
                        &&& has_item(final(self).outbox@, items@[k].id)
                    }
            },
    {
        let envelopes = match crate::communication::build_envelopes(
            messages,
            self.server_peer_id,
            &self.peers,
        ) {
            Ok(e) => e,
            Err(e) => {
                return Err(e);
            },
        };
        let items = self.outbox.enqueue_envelopes(envelopes);
        Ok(items)
    }
}

} // verus!
