//! A small map from peer id to field value, kept as a vector of entries
//! sorted strictly by key. The representation is canonical: two maps with
//! the same contents are equal as data, which is what makes idempotence
//! arguments exact.

use vstd::prelude::*;

verus! {

/// The mathematical contents of an entry list.
pub open spec fn entries_map(s: Seq<(u8, u64)>) -> Map<u8, u64>
    decreases s.len(),
{
    if s.len() == 0 {
        Map::empty()
    } else {
        entries_map(s.drop_last()).insert(s.last().0, s.last().1)
    }
}

/// Keys strictly increasing.
pub open spec fn entries_sorted(s: Seq<(u8, u64)>) -> bool {
    forall|i: int, j: int| 0 <= i < j < s.len() ==> s[i].0 < s[j].0
}

/// Sum of the values modulo `p`, in entry order.
pub open spec fn entries_sum(s: Seq<(u8, u64)>, p: int) -> int
    decreases s.len(),
{
    if s.len() == 0 {
        0
    } else {
        (entries_sum(s.drop_last(), p) + s.last().1) % p
    }
}

/// A key of any entry is in the map, and the map holds only entry keys.
pub proof fn lemma_entries_map_keys(s: Seq<(u8, u64)>)
    requires
        entries_sorted(s),
    ensures
        forall|k: u8| entries_map(s).contains_key(k) <==> exists|i: int|
            0 <= i < s.len() && (#[trigger] s[i]).0 == k,
        forall|i: int| 0 <= i < s.len() ==> entries_map(s)[(#[trigger] s[i]).0] == s[i].1,
        entries_map(s).dom().finite(),
        entries_map(s).dom().len() == s.len(),
    decreases s.len(),
{
    if s.len() == 0 {
    } else {
        let pre = s.drop_last();
        lemma_entries_map_keys(pre);
        assert forall|k: u8| entries_map(s).contains_key(k) implies exists|i: int|
            0 <= i < s.len() && (#[trigger] s[i]).0 == k by {
            if k == s.last().0 {
                assert(s[s.len() - 1].0 == k);
            } else {
                let i = choose|i: int| 0 <= i < pre.len() && (#[trigger] pre[i]).0 == k;
                assert(s[i].0 == k);
            }
        }
        assert forall|i: int| 0 <= i < s.len() implies entries_map(s)[(#[trigger] s[i]).0]
            == s[i].1 by {
            if i < s.len() - 1 {
                assert(pre[i] == s[i]);
                assert(s[i].0 < s.last().0);
            }
        }
        assert forall|i: int| 0 <= i < s.len() implies entries_map(s).contains_key(
            (#[trigger] s[i]).0,
        ) by {
            if i < s.len() - 1 {
                assert(pre[i] == s[i]);
                assert(entries_map(pre).contains_key(pre[i].0));
            }
        }
        // the last key is fresh in the prefix, so the cardinality grows by one
        assert(!entries_map(pre).contains_key(s.last().0)) by {
            if entries_map(pre).contains_key(s.last().0) {
                let i = choose|i: int|
                    0 <= i < pre.len() && (#[trigger] pre[i]).0 == s.last().0;
                assert(s[i].0 < s.last().0);
            }
        }
    }
}

/// In a sorted entry list the key at index `i` is at least `i`.
pub proof fn lemma_sorted_index_bound(s: Seq<(u8, u64)>, i: int)
    requires
        entries_sorted(s),
        0 <= i < s.len(),
    ensures
        s[i].0 >= i,
    decreases i,
{
    if i > 0 {
        lemma_sorted_index_bound(s, i - 1);
        assert(s[i - 1].0 < s[i].0);
    }
}

/// A sorted entry list over 8-bit keys has at most 256 entries.
pub proof fn lemma_entries_len_bound(s: Seq<(u8, u64)>)
    requires
        entries_sorted(s),
    ensures
        s.len() <= 256,
{
    if s.len() > 256 {
        lemma_sorted_index_bound(s, 256);
    }
}

/// Sorted entry lists with equal contents are equal.
pub proof fn lemma_entries_canonical(s1: Seq<(u8, u64)>, s2: Seq<(u8, u64)>)
    requires
        entries_sorted(s1),
        entries_sorted(s2),
        entries_map(s1) == entries_map(s2),
    ensures
        s1 == s2,
    decreases s1.len(),
{
    lemma_entries_map_keys(s1);
    lemma_entries_map_keys(s2);
    if s1.len() == 0 {
        if s2.len() > 0 {
            assert(entries_map(s2).contains_key(s2[s2.len() - 1].0));
            assert(false);
        }
        assert(s1 =~= s2);
    } else {
        assert(s2.len() == s1.len());
        let k1 = s1.last().0;
        let k2 = s2.last().0;
        // each last key is in the other map, hence bounded by the other last key
        assert(entries_map(s2).contains_key(k1));
        let i2 = choose|i: int| 0 <= i < s2.len() && (#[trigger] s2[i]).0 == k1;
        assert(k1 <= k2);
        assert(entries_map(s1).contains_key(k2));
        let i1 = choose|i: int| 0 <= i < s1.len() && (#[trigger] s1[i]).0 == k2;
        assert(k2 <= k1);
        assert(k1 == k2);
        assert(s1.last().1 == entries_map(s1)[k1]);
        assert(s2.last().1 == entries_map(s2)[k1]);
        assert(s1.last() == s2.last());
        let p1 = s1.drop_last();
        let p2 = s2.drop_last();
        lemma_entries_map_keys(p1);
        lemma_entries_map_keys(p2);
        assert(entries_map(p1) =~= entries_map(p2)) by {
            assert forall|k: u8| entries_map(p1).contains_key(k) implies entries_map(
                p2,
            ).contains_key(k) && entries_map(p2)[k] == entries_map(p1)[k] by {
                let i = choose|i: int| 0 <= i < p1.len() && (#[trigger] p1[i]).0 == k;
                assert(s1[i].0 == k && s1[i].1 == p1[i].1);
                assert(k < k1);
                assert(entries_map(s2).contains_key(k));
                let j = choose|j: int| 0 <= j < s2.len() && (#[trigger] s2[j]).0 == k;
                assert(j < s2.len() - 1);
                assert(p2[j].0 == k);
                assert(entries_map(p2)[k] == p2[j].1);
                assert(entries_map(p1)[k] == p1[i].1);
                assert(entries_map(s1)[k] == entries_map(p1)[k]);
                assert(entries_map(s2)[k] == entries_map(p2)[k]);
            }
            assert forall|k: u8| entries_map(p2).contains_key(k) implies entries_map(
                p1,
            ).contains_key(k) by {
                let j = choose|j: int| 0 <= j < p2.len() && (#[trigger] p2[j]).0 == k;
                assert(s2[j].0 == k);
                assert(k < k1);
                assert(entries_map(s1).contains_key(k));
                let i = choose|i: int| 0 <= i < s1.len() && (#[trigger] s1[i]).0 == k;
                assert(i < s1.len() - 1);
                assert(p1[i].0 == k);
            }
        }
        lemma_entries_canonical(p1, p2);
        assert forall|idx: int| 0 <= idx < s1.len() implies s1[idx] == s2[idx] by {
            if idx < s1.len() - 1 {
                assert(s1[idx] == p1[idx]);
                assert(s2[idx] == p2[idx]);
            }
        }
        assert(s1 =~= s2);
    }
}

/// A map from peer id to value, sorted strictly by id.
#[derive(PartialEq, Eq, Debug)]
pub struct IdMap {
    entries: Vec<(u8, u64)>,
}

impl View for IdMap {
    type V = Seq<(u8, u64)>;

    closed spec fn view(&self) -> Seq<(u8, u64)> {
        self.entries@
    }
}

impl Clone for IdMap {
    /// An exact copy with the same entries.
    fn clone(&self) -> (res: Self)
        ensures
            res@ == self@,
    {
        let mut entries: Vec<(u8, u64)> = Vec::new();
        let mut i: usize = 0;
        while i < self.entries.len()
            invariant
                i <= self.entries@.len(),
                entries@ == self.entries@.take(i as int),
            decreases self.entries@.len() - i,
        {
            let e = self.entries[i];
            entries.push(e);
            proof {
                assert(entries@ =~= self.entries@.take(i + 1));
            }
            i = i + 1;
        }
        proof {
            assert(entries@ =~= self.entries@);
        }
        IdMap { entries }
    }
}

impl IdMap {
    /// Well-formed: entries sorted strictly by key.
    pub open spec fn wf(&self) -> bool {
        entries_sorted(self@)
    }

    /// The contents as a mathematical map.
    pub open spec fn as_map(&self) -> Map<u8, u64> {
        entries_map(self@)
    }

    /// The empty map.
    pub fn new() -> (res: IdMap)
        ensures
            res.wf(),
            res@ == Seq::<(u8, u64)>::empty(),
            res.as_map() == Map::<u8, u64>::empty(),
    {
        IdMap { entries: Vec::new() }
    }

    /// Number of entries, with no claim about the contents.
    pub fn len_entries(&self) -> (r: usize)
        ensures
            r == self@.len(),
    {
        self.entries.len()
    }

    /// Number of entries, which equals the number of distinct keys.
    pub fn len(&self) -> (r: usize)
        requires
            self.wf(),
        ensures
            r == self@.len(),
            r == self.as_map().dom().len(),
    {
        proof {
            lemma_entries_map_keys(self@);
        }
        self.entries.len()
    }

    /// Whether `id` is present.
    pub fn contains_key(&self, id: u8) -> (r: bool)
        requires
            self.wf(),
        ensures
            r == self.as_map().contains_key(id),
    {
        proof {
            lemma_entries_map_keys(self@);
        }
        let mut i: usize = 0;
        while i < self.entries.len()
            invariant
                self.wf(),
                i <= self@.len(),
                forall|j: int| 0 <= j < i ==> (#[trigger] self@[j]).0 != id,
            decreases self@.len() - i,
        {
            if self.entries[i].0 == id {
                proof {
                    lemma_entries_map_keys(self@);
                    assert((self@[i as int]).0 == id);
                }
                return true;
            }
            i = i + 1;
        }
        false
    }

    /// Looks a value up.
    pub fn get(&self, id: u8) -> (r: Option<u64>)
        requires
            self.wf(),
        ensures
            r == (if self.as_map().contains_key(id) {
                Some(self.as_map()[id])
            } else {
                Option::<u64>::None
            }),
    {
        proof {
            lemma_entries_map_keys(self@);
        }
        let mut i: usize = 0;
        while i < self.entries.len()
            invariant
                self.wf(),
                i <= self@.len(),
                forall|j: int| 0 <= j < i ==> (#[trigger] self@[j]).0 != id,
            decreases self@.len() - i,
        {
            let e = self.entries[i];
            if e.0 == id {
                proof {
                    lemma_entries_map_keys(self@);
                    assert((self@[i as int]).0 == id);
                }
                return Some(e.1);
            }
            i = i + 1;
        }
        None
    }

    /// Inserts or overwrites, keeping the entries sorted.
    pub fn insert(&mut self, id: u8, value: u64)
        requires
            old(self).wf(),
        ensures
            final(self).wf(),
            final(self).as_map() == old(self).as_map().insert(id, value),
    {
        let ghost pre = self@;
        let len = self.entries.len();
        let mut i: usize = 0;
        // find the insertion position: first index with key >= id
        while i < len && self.entries[i].0 < id
            invariant
                self.wf(),
                self@ == pre,
                len == self@.len(),
                i <= len,
                forall|j: int| 0 <= j < i ==> (#[trigger] self@[j]).0 < id,
            decreases len - i,
        {
            i = i + 1;
        }
        if i < len && self.entries[i].0 == id {
            self.entries.set(i, (id, value));
            proof {
                assert(final(self)@ =~= pre.update(i as int, (id, value)));
                lemma_entries_update(pre, i as int, id, value);
            }
        } else {
            self.entries.insert(i, (id, value));
            proof {
                assert(self@ =~= pre.take(i as int) + seq![(id, value)] + pre.skip(i as int));
                assert forall|a: int, b: int| 0 <= a < b < self@.len() implies self@[a].0
                    < self@[b].0 by {
                    if a < i && b == i {
                        assert(self@[a] == pre[a]);
                    } else if a == i && b > i {
                        assert(self@[b] == pre[b - 1]);
                        assert(pre[b - 1].0 >= id);
                        assert(pre[b - 1].0 != id);
                    } else if a < i && b > i {
                        assert(self@[a] == pre[a]);
                        assert(self@[b] == pre[b - 1]);
                    } else if a > i && b > i {
                        assert(self@[a] == pre[a - 1]);
                        assert(self@[b] == pre[b - 1]);
                    } else if a < i && b < i {
                        assert(self@[a] == pre[a]);
                        assert(self@[b] == pre[b]);
                    }
                }
                lemma_entries_insert_fresh(pre, self@, i as int, id, value);
            }
        }
    }

    /// Removes a key, returning its value when present.
    pub fn remove(&mut self, id: u8) -> (r: Option<u64>)
        requires
            old(self).wf(),
        ensures
            final(self).wf(),
            final(self).as_map() == old(self).as_map().remove(id),
            r == (if old(self).as_map().contains_key(id) {
                Some(old(self).as_map()[id])
            } else {
                Option::<u64>::None
            }),
    {
        proof {
            lemma_entries_map_keys(self@);
        }
        let ghost pre = self@;
        let len = self.entries.len();
        let mut i: usize = 0;
        while i < len
            invariant
                self.wf(),
                self@ == pre,
                pre == old(self)@,
                len == self@.len(),
                i <= len,
                forall|j: int| 0 <= j < i ==> (#[trigger] self@[j]).0 != id,
            decreases len - i,
        {
            let e = self.entries[i];
            if e.0 == id {
                proof {
                    lemma_entries_map_keys(pre);
                    assert((pre[i as int]).0 == id);
                    assert(entries_map(pre).contains_key(id));
                    assert(entries_map(pre)[id] == pre[i as int].1);
                }
                self.entries.remove(i);
                proof {
                    assert(self@ =~= pre.take(i as int) + pre.skip(i + 1));
                    assert forall|a: int, b: int| 0 <= a < b < self@.len() implies self@[a].0
                        < self@[b].0 by {
                        if b < i {
                        } else if a < i && b >= i {
                            assert(self@[a] == pre[a]);
                            assert(self@[b] == pre[b + 1]);
                        } else {
                            assert(self@[a] == pre[a + 1]);
                            assert(self@[b] == pre[b + 1]);
                        }
                    }
                    lemma_entries_remove(pre, self@, i as int, id);
                }
                return Some(e.1);
            }
            i = i + 1;
        }
        proof {
            assert(!old(self).as_map().contains_key(id));
            assert(old(self).as_map().remove(id) =~= old(self).as_map());
        }
        None
    }

    /// The entry at an index, for iteration.
    pub fn entry_at(&self, i: usize) -> (r: (u8, u64))
        requires
            i < self@.len(),
        ensures
            r == self@[i as int],
    {
        self.entries[i]
    }

    /// Sum of all values modulo `p`.
    pub fn sum_mod(&self, p: u64) -> (r: u64)
        requires
            p >= 1,
        ensures
            r as int == entries_sum(self@, p as int),
            r < p,
    {
        let mut acc: u64 = 0;
        let mut i: usize = 0;
        proof {
            assert(self@.take(0) =~= Seq::<(u8, u64)>::empty());
            vstd::arithmetic::div_mod::lemma_small_mod(0nat, p as nat);
        }
        while i < self.entries.len()
            invariant
                p >= 1,
                i <= self@.len(),
                acc as int == entries_sum(self@.take(i as int), p as int),
                acc < p,
            decreases self@.len() - i,
        {
            let e = self.entries[i];
            let next = crate::field::mod_add(acc, e.1, p);
            proof {
                assert(self@.take(i + 1).drop_last() =~= self@.take(i as int));
                assert(self@.take(i + 1).last() == self@[i as int]);
                vstd::arithmetic::div_mod::lemma_add_mod_noop(
                    acc as int,
                    e.1 as int,
                    p as int,
                );
                vstd::arithmetic::div_mod::lemma_small_mod(acc as nat, p as nat);
                assert((acc + e.1) % (p as int) == (entries_sum(self@.take(i as int), p as int)
                    + e.1) % (p as int));
            }
            acc = next;
            i = i + 1;
        }
        proof {
            assert(self@.take(self@.len() as int) =~= self@);
        }
        acc
    }
}

/// Updating an entry in place updates the map.
proof fn lemma_entries_update(s: Seq<(u8, u64)>, i: int, id: u8, value: u64)
    requires
        entries_sorted(s),
        0 <= i < s.len(),
        s[i].0 == id,
    ensures
        entries_sorted(s.update(i, (id, value))),
        entries_map(s.update(i, (id, value))) == entries_map(s).insert(id, value),
    decreases s.len(),
{
    let t = s.update(i, (id, value));
    assert forall|a: int, b: int| 0 <= a < b < t.len() implies t[a].0 < t[b].0 by {
        assert(s[a].0 < s[b].0);
    }
    if i == s.len() - 1 {
        assert(t.drop_last() =~= s.drop_last());
        assert(entries_map(t) =~= entries_map(s).insert(id, value));
    } else {
        lemma_entries_update(s.drop_last(), i, id, value);
        assert(t.drop_last() =~= s.drop_last().update(i, (id, value)));
        assert(t.last() == s.last());
        assert(entries_map(t) == entries_map(s.drop_last()).insert(id, value).insert(
            s.last().0,
            s.last().1,
        ));
        assert(s.last().0 != id);
        assert(entries_map(s.drop_last()).insert(id, value).insert(s.last().0, s.last().1)
            =~= entries_map(s.drop_last()).insert(s.last().0, s.last().1).insert(id, value));
    }
}

/// Inserting a fresh entry at its sorted position inserts into the map.
proof fn lemma_entries_insert_fresh(s: Seq<(u8, u64)>, t: Seq<(u8, u64)>, i: int, id: u8, value: u64)
    requires
        entries_sorted(s),
        entries_sorted(t),
        0 <= i <= s.len(),
        t.len() == s.len() + 1,
        t == s.take(i) + seq![(id, value)] + s.skip(i),
        forall|j: int| 0 <= j < i ==> (#[trigger] s[j]).0 < id,
        forall|j: int| i <= j < s.len() ==> (#[trigger] s[j]).0 > id,
    ensures
        entries_map(t) == entries_map(s).insert(id, value),
    decreases s.len(),
{
    if i == s.len() {
        assert(t.drop_last() =~= s);
        assert(t.last() == (id, value));
    } else {
        assert(t.last() == s.last());
        assert(t.drop_last() =~= s.drop_last().take(i) + seq![(id, value)] + s.drop_last().skip(
            i,
        ));
        lemma_entries_insert_fresh(s.drop_last(), t.drop_last(), i, id, value);
        assert(entries_map(t) == entries_map(s.drop_last()).insert(id, value).insert(
            s.last().0,
            s.last().1,
        ));
        assert(s.last().0 != id);
        assert(entries_map(s.drop_last()).insert(id, value).insert(s.last().0, s.last().1)
            =~= entries_map(s.drop_last()).insert(s.last().0, s.last().1).insert(id, value));
    }
}

/// Removing an entry removes its key from the map.
proof fn lemma_entries_remove(s: Seq<(u8, u64)>, t: Seq<(u8, u64)>, i: int, id: u8)
    requires
        entries_sorted(s),
        entries_sorted(t),
        0 <= i < s.len(),
        s[i].0 == id,
        t == s.take(i) + s.skip(i + 1),
    ensures
        entries_map(t) == entries_map(s).remove(id),
    decreases s.len(),
{
    lemma_entries_map_keys(s);
    lemma_entries_map_keys(t);
    if i == s.len() - 1 {
        assert(t =~= s.drop_last());
        assert(!entries_map(s.drop_last()).contains_key(id)) by {
            if entries_map(s.drop_last()).contains_key(id) {
                lemma_entries_map_keys(s.drop_last());
                let j = choose|j: int|
                    0 <= j < s.drop_last().len() && (#[trigger] s.drop_last()[j]).0 == id;
                assert(s[j].0 < s[i].0);
            }
        }
        assert(entries_map(t) =~= entries_map(s).remove(id));
    } else {
        assert(t.len() == s.len() - 1);
        assert(t.last() == s.last());
        assert(t.drop_last() =~= s.drop_last().take(i) + s.drop_last().skip(i + 1));
        lemma_entries_remove(s.drop_last(), t.drop_last(), i, id);
        assert(entries_map(t) == entries_map(s.drop_last()).remove(id).insert(
            s.last().0,
            s.last().1,
        ));
        assert(s.last().0 != id);
        assert(entries_map(s.drop_last()).remove(id).insert(s.last().0, s.last().1)
            =~= entries_map(s.drop_last()).insert(s.last().0, s.last().1).remove(id));
    }
}

} // verus!
