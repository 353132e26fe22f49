use vstd::prelude::*;

use crate::config::{config, default_max_key_limit};
use crate::time::{get_current_epoch_time, max_epoch_ms};
use rand::seq::IteratorRandom;

verus! {

/// A stored value and the time, in milliseconds since the Unix epoch, at which it
/// expires, if ever.
pub struct Obj {
    pub val: String,
    pub expires_at: Option<u128>,
}

/// The content of a stored value.
pub struct ObjView {
    pub val: Seq<char>,
    pub expires_at: Option<u128>,
}

impl View for Obj {
    type V = ObjView;

    open spec fn view(&self) -> ObjView {
        ObjView { val: self.val@, expires_at: self.expires_at }
    }
}

/// When a value stored at `now` for `duration_ms` expires.
pub open spec fn expiry_after(duration_ms: Option<u128>, now: u128) -> Option<u128> {
    match duration_ms {
        Some(d) => Some((now + d) as u128),
        None => None,
    }
}

impl Obj {
    /// A value that, stored at time `now`, expires `duration_ms` later, if given.
    pub fn new_at(val: String, duration_ms: Option<u128>, now: u128) -> (o: Obj)
        requires
            duration_ms matches Some(d) ==> now + d <= u128::MAX,
        ensures
            o@ == (ObjView { val: val@, expires_at: expiry_after(duration_ms, now) }),
    {
        let expires_at = match duration_ms {
            Some(d) => Some(now + d),
            None => None,
        };
        Obj { val, expires_at }
    }

    /// A value that expires `duration_ms` after the current time, if given.
    pub fn new(val: String, duration_ms: Option<u128>) -> (o: Obj)
        requires
            duration_ms matches Some(d) ==> d <= u128::MAX - max_epoch_ms(),
        ensures
            o.val@ == val@,
            duration_ms is None ==> o.expires_at is None,
            duration_ms matches Some(d) ==> (o.expires_at matches Some(t) && d <= t <= d
                + max_epoch_ms()),
    {
        let now = get_current_epoch_time();
        Obj::new_at(val, duration_ms, now)
    }
}

// ---------------------------------------------------------------------------
// The model of a list of entries
// ---------------------------------------------------------------------------

/// The keys of entries, in order.
pub open spec fn order_of(e: Seq<(String, Obj)>) -> Seq<Seq<char>> {
    Seq::new(e.len(), |i: int| e[i].0@)
}

/// The map from each key to its value that entries hold.
pub open spec fn map_of(e: Seq<(String, Obj)>) -> Map<Seq<char>, ObjView> {
    Map::new(
        |k: Seq<char>| order_of(e).contains(k),
        |k: Seq<char>| e[order_of(e).index_of(k)].1@,
    )
}

/// In a sequence without duplicates, the position found for an item is its own.
pub proof fn lemma_index_of_unique(o: Seq<Seq<char>>, i: int)
    requires
        o.no_duplicates(),
        0 <= i < o.len(),
    ensures
        o.contains(o[i]),
        o.index_of(o[i]) == i,
{
    assert(o.contains(o[i]));
    let j = o.index_of(o[i]);
    assert(o[j] == o[i]);
}

proof fn lemma_map_of_at(e: Seq<(String, Obj)>, i: int)
    requires
        order_of(e).no_duplicates(),
        0 <= i < e.len(),
    ensures
        map_of(e).contains_key(e[i].0@),
        map_of(e)[e[i].0@] == e[i].1@,
{
    let o = order_of(e);
    assert(o[i] == e[i].0@);
    assert(o.contains(e[i].0@));
    let j = o.index_of(e[i].0@);
    assert(o[j] == e[i].0@);
}

proof fn lemma_map_of_update(e: Seq<(String, Obj)>, i: int, x: (String, Obj))
    requires
        order_of(e).no_duplicates(),
        0 <= i < e.len(),
        x.0@ == e[i].0@,
    ensures
        order_of(e.update(i, x)) == order_of(e),
        map_of(e.update(i, x)) == map_of(e).insert(x.0@, x.1@),
{
    let e2 = e.update(i, x);
    assert(order_of(e2) =~= order_of(e));
    assert(order_of(e)[i] == x.0@);
    assert(order_of(e).contains(x.0@));
    assert(map_of(e2).dom() =~= map_of(e).insert(x.0@, x.1@).dom());
    assert forall|k: Seq<char>| #[trigger] map_of(e2).contains_key(k) implies map_of(e2)[k]
        == map_of(e).insert(x.0@, x.1@)[k] by {
        let j = order_of(e).index_of(k);
        assert(order_of(e)[j] == k);
        assert(order_of(e)[i] == e[i].0@);
        if k == x.0@ {
            lemma_index_of_unique(order_of(e), i);
            assert(j == i);
            assert(order_of(e2).index_of(k) == i);
        } else {
            assert(j != i);
            lemma_map_of_at(e, j);
        }
    }
    assert(map_of(e2) =~= map_of(e).insert(x.0@, x.1@));
}

proof fn lemma_map_of_push(e: Seq<(String, Obj)>, x: (String, Obj))
    requires
        order_of(e).no_duplicates(),
        !order_of(e).contains(x.0@),
    ensures
        order_of(e.push(x)) == order_of(e).push(x.0@),
        order_of(e.push(x)).no_duplicates(),
        map_of(e.push(x)) == map_of(e).insert(x.0@, x.1@),
{
    let e2 = e.push(x);
    assert(order_of(e2) =~= order_of(e).push(x.0@));
    assert forall|a: int, b: int|
        0 <= a < order_of(e2).len() && 0 <= b < order_of(e2).len() && a != b implies order_of(
        e2,
    )[a] != order_of(e2)[b] by {
        if a < e.len() && b < e.len() {
            assert(order_of(e2)[a] == order_of(e)[a]);
            assert(order_of(e2)[b] == order_of(e)[b]);
        } else if a < e.len() {
            assert(order_of(e)[a] == order_of(e2)[a]);
        } else {
            assert(order_of(e)[b] == order_of(e2)[b]);
        }
    }
    assert forall|k: Seq<char>| #[trigger] map_of(e2).contains_key(k) implies map_of(e2)[k]
        == map_of(e).insert(x.0@, x.1@)[k] by {
        let j = order_of(e2).index_of(k);
        assert(order_of(e2)[j] == k);
        if k == x.0@ {
            assert(j == e.len());
        } else {
            assert(j < e.len());
            assert(order_of(e)[j] == k);
            lemma_map_of_at(e, j);
        }
    }
    assert forall|k: Seq<char>| map_of(e).insert(x.0@, x.1@).contains_key(k) implies #[trigger] map_of(
        e2,
    ).contains_key(k) by {
        if k != x.0@ {
            let j = order_of(e).index_of(k);
            assert(order_of(e2)[j] == k);
        } else {
            assert(order_of(e2)[e.len() as int] == k);
        }
    }
    assert(map_of(e2) =~= map_of(e).insert(x.0@, x.1@));
}

proof fn lemma_map_of_remove(e: Seq<(String, Obj)>, i: int)
    requires
        order_of(e).no_duplicates(),
        0 <= i < e.len(),
    ensures
        order_of(e.remove(i)) == order_of(e).remove(i),
        order_of(e.remove(i)).no_duplicates(),
        map_of(e.remove(i)) == map_of(e).remove(e[i].0@),
{
    let e2 = e.remove(i);
    let o = order_of(e);
    assert(order_of(e2) =~= o.remove(i));
    assert forall|a: int, b: int|
        0 <= a < order_of(e2).len() && 0 <= b < order_of(e2).len() && a != b implies order_of(
        e2,
    )[a] != order_of(e2)[b] by {
        let a2 = if a < i {
            a
        } else {
            a + 1
        };
        let b2 = if b < i {
            b
        } else {
            b + 1
        };
        assert(order_of(e2)[a] == o[a2]);
        assert(order_of(e2)[b] == o[b2]);
    }
    let k0 = e[i].0@;
    assert forall|k: Seq<char>| #[trigger] map_of(e2).contains_key(k) implies map_of(e2)[k]
        == map_of(e).remove(k0)[k] && k != k0 by {
        let j = order_of(e2).index_of(k);
        assert(order_of(e2)[j] == k);
        let j2 = if j < i {
            j
        } else {
            j + 1
        };
        assert(o[j2] == k);
        assert(e2[j] == e[j2]);
        assert(j2 != i);
        lemma_map_of_at(e, j2);
        assert(o[i] == k0);
    }
    assert forall|k: Seq<char>| map_of(e).remove(k0).contains_key(k) implies #[trigger] map_of(
        e2,
    ).contains_key(k) by {
        let j = o.index_of(k);
        assert(o[j] == k);
        assert(j != i);
        let j2 = if j < i {
            j
        } else {
            j - 1
        };
        assert(order_of(e2)[j2] == k);
    }
    assert(map_of(e2) =~= map_of(e).remove(k0));
}

// ---------------------------------------------------------------------------
// The store
// ---------------------------------------------------------------------------

/// The key-value store: each key at most once, in the order keys were first put.
pub struct Store {
    entries: Vec<(String, Obj)>,
}

impl View for Store {
    type V = Map<Seq<char>, ObjView>;

    closed spec fn view(&self) -> Map<Seq<char>, ObjView> {
        map_of(self.entries@)
    }
}

/// Whether a value has expired at time `now`.
pub open spec fn expired_at(o: ObjView, now: u128) -> bool {
    o.expires_at matches Some(t) && t <= now
}

impl Store {
    /// The keys, in the store's order.
    pub closed spec fn key_order(self) -> Seq<Seq<char>> {
        order_of(self.entries@)
    }

    /// The store is well formed: no key occurs twice.
    pub closed spec fn wf(self) -> bool {
        self.key_order().no_duplicates()
    }

    /// The map holds exactly the keys of the order, each once.
    pub proof fn lemma_view(self)
        requires
            self.wf(),
        ensures
            self.key_order().no_duplicates(),
            forall|k: Seq<char>| #[trigger]
                self@.contains_key(k) <==> self.key_order().contains(k),
            self@.dom() == self.key_order().to_set(),
            self@.dom().len() == self.key_order().len(),
            self@.dom().finite(),
    {
        assert(self@.dom() =~= self.key_order().to_set());
        self.key_order().unique_seq_to_set();
    }

    /// An empty store.
    pub fn new() -> (s: Self)
        ensures
            s.wf(),
            s@ == Map::<Seq<char>, ObjView>::empty(),
            s.key_order() == Seq::<Seq<char>>::empty(),
    {
        let s = Store { entries: Vec::new() };
        assert(s.key_order() =~= Seq::<Seq<char>>::empty());
        assert(s@ =~= Map::<Seq<char>, ObjView>::empty());
        s
    }

    /// The number of keys.
    pub fn size(&self) -> (r: usize)
        ensures
            r == self.key_order().len(),
    {
        self.entries.len()
    }

    /// The entries, in the store's order.
    pub closed spec fn entries(self) -> Seq<(String, Obj)> {
        self.entries@
    }

    /// The entries hold the keys in the store's order, each with its value.
    pub proof fn lemma_entries(self)
        requires
            self.wf(),
        ensures
            self.entries().len() == self.key_order().len(),
            forall|i: int|
                0 <= i < self.entries().len() ==> #[trigger] self.entries()[i].0@
                    == self.key_order()[i] && self@[self.key_order()[i]] == self.entries()[i].1@,
    {
        assert forall|i: int| 0 <= i < self.entries().len() implies #[trigger] self.entries()[i].0@
            == self.key_order()[i] && self@[self.key_order()[i]] == self.entries()[i].1@ by {
            lemma_map_of_at(self.entries@, i);
        }
    }

    /// The key and value at a position of the order.
    pub(crate) fn entry_at(&self, i: usize) -> (r: &(String, Obj))
        requires
            self.wf(),
            i < self.key_order().len(),
        ensures
            r.0@ == self.key_order()[i as int],
            r.1@ == self@[self.key_order()[i as int]],
    {
        proof {
            lemma_map_of_at(self.entries@, i as int);
        }
        &self.entries[i]
    }

    /// An iterator over the entries, in the store's order.
    pub fn iter(&self) -> (r: std::slice::Iter<'_, (String, Obj)>)
        ensures
            vstd::std_specs::slice::into_iter_elts(r) == self.entries(),
    {
        let s = self.entries.as_slice();
        let it = s.iter();
        proof {
            assert(s@.as_ref().unref() =~= s@);
        }
        it
    }

    /// The position of a key in the order.
    fn find(&self, key: &String) -> (r: Option<usize>)
        ensures
            match r {
                Some(i) => i < self.key_order().len() && self.key_order()[i as int] == key@,
                None => !self.key_order().contains(key@),
            },
    {
        let mut i: usize = 0;
        while i < self.entries.len()
            invariant
                i <= self.entries@.len(),
                forall|j: int| 0 <= j < i ==> self.key_order()[j] != key@,
            decreases self.entries@.len() - i,
        {
            if self.entries[i].0 == *key {
                return Some(i);
            }
            i = i + 1;
        }
        None
    }

    /// The value of a key.
    pub fn get(&self, key: &String) -> (r: Option<&Obj>)
        requires
            self.wf(),
        ensures
            match r {
                Some(o) => self@.contains_key(key@) && o@ == self@[key@],
                None => !self@.contains_key(key@),
            },
    {
        match self.find(key) {
            Some(i) => {
                proof {
                    lemma_map_of_at(self.entries@, i as int);
                }
                Some(&self.entries[i].1)
            },
            None => None,
        }
    }

    /// The value of a key, to change in place.
    pub fn get_mut(&mut self, key: &String) -> (r: Option<&mut Obj>)
        requires
            old(self).wf(),
        ensures
            final(self).wf(),
            final(self).key_order() == old(self).key_order(),
            match r {
                Some(o) => old(self)@.contains_key(key@) && o@ == old(self)@[key@] && final(self)@
                    == old(self)@.insert(key@, final(o)@),
                None => !old(self)@.contains_key(key@) && final(self)@ == old(self)@,
            },
    {
        match self.find(key) {
            Some(i) => {
                proof {
                    lemma_map_of_at(self.entries@, i as int);
                }
                let ghost e0 = self.entries@;
                let entry = &mut self.entries[i];
                let o = &mut entry.1;
                proof {
                    lemma_map_of_update(e0, i as int, (e0[i as int].0, *final(o)));
                }
                Some(o)
            },
            None => None,
        }
    }

    /// Removes a key; tells whether it was there.
    pub fn delete(&mut self, key: &String) -> (r: bool)
        requires
            old(self).wf(),
        ensures
            final(self).wf(),
            r == old(self)@.contains_key(key@),
            final(self)@ == old(self)@.remove(key@),
            r ==> final(self).key_order() == old(self).key_order().remove(
                old(self).key_order().index_of(key@),
            ),
            !r ==> final(self).key_order() == old(self).key_order(),
            final(self).state() == st_delete(old(self).state(), key@),
    {
        match self.find(key) {
            Some(i) => {
                proof {
                    lemma_map_of_remove(self.entries@, i as int);
                    lemma_map_of_at(self.entries@, i as int);
                    assert(old(self).key_order().index_of(key@) == i);
                }
                self.entries.remove(i);
                true
            },
            None => {
                assert(old(self)@.remove(key@) =~= old(self)@);
                false
            },
        }
    }

    /// Removes the first key of the order, if any.
    pub fn evict_first(&mut self)
        requires
            old(self).wf(),
        ensures
            final(self).wf(),
            old(self).key_order().len() == 0 ==> final(self)@ == old(self)@
                && final(self).key_order() == old(self).key_order(),
            old(self).key_order().len() > 0 ==> final(self)@ == old(self)@.remove(
                old(self).key_order()[0],
            ) && final(self).key_order() == old(self).key_order().drop_first(),
    {
        if self.entries.len() > 0 {
            let first_key = self.entries[0].0.clone();
            proof {
                lemma_index_of_unique(old(self).key_order(), 0);
                assert(old(self).key_order()[0] == first_key@);
            }
            self.delete(&first_key);
            proof {
                assert(old(self).key_order().remove(0) =~= old(self).key_order().drop_first());
            }
        }
    }

    /// Removes, among the keys at the given positions, those whose values have
    /// expired at `now`; gives how many it removed.
    pub fn cleanup_expired_among(&mut self, picks: &Vec<usize>, now: u128) -> (r: usize)
        requires
            old(self).wf(),
            valid_picks(picks@, old(self).key_order().len()),
        ensures
            final(self).wf(),
            r == expired_keys_among(old(self)@, old(self).key_order(), picks@, now).len(),
            final(self)@ == old(self)@.remove_keys(
                expired_keys_among(old(self)@, old(self).key_order(), picks@, now).to_set(),
            ),
            final(self).key_order().len() == old(self).key_order().len() - r,
    {
        let ghost m = self@;
        let ghost order = self.key_order();
        let mut keys_to_delete: Vec<String> = Vec::new();
        let mut j: usize = 0;
        proof {
            assert(picks@.take(0) =~= Seq::<usize>::empty());
        }
        while j < picks.len()
            invariant
                self.wf(),
                m == self@,
                order == self.key_order(),
                valid_picks(picks@, order.len()),
                j <= picks@.len(),
                Seq::new(keys_to_delete@.len(), |i: int| keys_to_delete@[i]@)
                    == expired_keys_among(m, order, picks@.take(j as int), now),
                forall|a: int|
                    0 <= a < keys_to_delete@.len() ==> exists|b: int|
                        0 <= b < j && #[trigger] keys_to_delete@[a]@ == order[picks@[b] as int],
            decreases picks@.len() - j,
        {
            let p = picks[j];
            let key = &self.entries[p].0;
            let ghost kd = keys_to_delete@;
            proof {
                assert(picks@.take(j + 1).drop_last() =~= picks@.take(j as int));
                assert(order[p as int] == key@);
                lemma_map_of_at(self.entries@, p as int);
            }
            let expired = match self.entries[p].1.expires_at {
                Some(t) => t <= now,
                None => false,
            };
            if expired {
                let k = key.clone();
                keys_to_delete.push(k);
                proof {
                    assert(Seq::new(keys_to_delete@.len(), |i: int| keys_to_delete@[i]@) =~= Seq::new(
                        kd.len(),
                        |i: int| kd[i]@,
                    ).push(k@));
                    assert forall|a: int| 0 <= a < keys_to_delete@.len() implies exists|b: int|
                        0 <= b < j + 1 && #[trigger] keys_to_delete@[a]@ == order[picks@[b] as int] by {
                        if a == kd.len() {
                            assert(keys_to_delete@[a]@ == order[picks@[j as int] as int]);
                        } else {
                            assert(keys_to_delete@[a] == kd[a]);
                        }
                    }
                }
            } else {
                proof {
                    assert(Seq::new(keys_to_delete@.len(), |i: int| keys_to_delete@[i]@) =~= Seq::new(
                        kd.len(),
                        |i: int| kd[i]@,
                    ));
                }
            }
            j = j + 1;
        }
        proof {
            assert(picks@.take(picks@.len() as int) =~= picks@);
        }
        let ghost kv = Seq::new(keys_to_delete@.len(), |i: int| keys_to_delete@[i]@);
        proof {
            // The keys to delete are distinct keys of the store.
            assert forall|a: int, b: int|
                0 <= a < kv.len() && 0 <= b < kv.len() && a != b implies kv[a] != kv[b] by {
                lemma_expired_keys_distinct(m, order, picks@, now, a, b);
            }
            assert forall|a: int| 0 <= a < kv.len() implies m.contains_key(#[trigger] kv[a]) by {
                let b = choose|b: int|
                    0 <= b < picks@.len() && #[trigger] keys_to_delete@[a]@ == order[picks@[b] as int];
                assert(order.contains(order[picks@[b] as int]));
            }
        }
        let deleted = keys_to_delete.len();
        let mut i: usize = 0;
        proof {
            assert(kv.take(0).to_set() =~= Set::<Seq<char>>::empty());
            assert(m.remove_keys(Set::<Seq<char>>::empty()) =~= m);
        }
        while i < keys_to_delete.len()
            invariant
                self.wf(),
                i <= kv.len(),
                kv.len() == keys_to_delete@.len(),
                forall|a: int| 0 <= a < kv.len() ==> #[trigger] kv[a] == keys_to_delete@[a]@,
                kv.no_duplicates(),
                forall|a: int| 0 <= a < kv.len() ==> m.contains_key(#[trigger] kv[a]),
                self@ == m.remove_keys(kv.take(i as int).to_set()),
                self.key_order().len() == order.len() - i,
            decreases kv.len() - i,
        {
            let ghost before = self@;
            proof {
                assert(!kv.take(i as int).contains(kv[i as int]));
                assert(!kv.take(i as int).to_set().contains(kv[i as int]));
                assert(before.contains_key(kv[i as int]));
            }
            let was = self.delete(&keys_to_delete[i]);
            proof {
                assert(was);
                lemma_to_set_push(kv.take(i as int), kv[i as int]);
                assert(kv.take(i + 1) =~= kv.take(i as int).push(kv[i as int]));
                assert(self@ =~= m.remove_keys(kv.take(i + 1).to_set()));
            }
            i = i + 1;
        }
        proof {
            assert(kv.take(kv.len() as int) =~= kv);
        }
        deleted
    }

    /// Removes, among a random sample of `sample_size` keys (all keys when there are
    /// fewer), those whose values have expired at the current time; gives how many it
    /// removed.
    pub fn cleanup_expired_samples(&mut self, sample_size: usize) -> (r: usize)
        requires
            old(self).wf(),
        ensures
            final(self).wf(),
            r <= sample_size,
            final(self).key_order().len() == old(self).key_order().len() - r,
            exists|picks: Seq<usize>, now: u128|
                {
                    &&& now <= max_epoch_ms()
                    &&& valid_picks(picks, old(self).key_order().len())
                    &&& picks.len() == if old(self).key_order().len() < sample_size {
                        old(self).key_order().len()
                    } else {
                        sample_size as nat
                    }
                    &&& r == expired_keys_among(old(self)@, old(self).key_order(), picks, now).len()
                    &&& final(self)@ == old(self)@.remove_keys(
                        expired_keys_among(old(self)@, old(self).key_order(), picks, now).to_set(),
                    )
                },
    {
        let now = get_current_epoch_time();
        let picks = sample_positions(self.entries.len(), sample_size);
        let r = self.cleanup_expired_among(&picks, now);
        proof {
            lemma_expired_keys_len(old(self)@, old(self).key_order(), picks@, now);
        }
        r
    }

    /// Stores a value under a key. When the store holds more keys than the limit,
    /// the first key of the order is evicted first.
    pub fn put(&mut self, key: String, obj: Obj)
        requires
            old(self).wf(),
        ensures
            final(self).wf(),
            final(self)@ == put_result(old(self)@, old(self).key_order(), key@, obj@),
            final(self).key_order() == put_order(old(self).key_order(), key@),
            final(self).state() == st_put(old(self).state(), key@, obj@),
    {
        if self.size() > config().max_key_limit {
            self.evict_first();
        }
        match self.find(&key) {
            Some(i) => {
                proof {
                    lemma_map_of_update(self.entries@, i as int, (key, obj));
                    assert(self.key_order().contains(key@));
                }
                self.entries.set(i, (key, obj));
            },
            None => {
                proof {
                    lemma_map_of_push(self.entries@, (key, obj));
                }
                self.entries.push((key, obj));
            },
        }
    }
}

/// Calls rand's `IteratorRandom::sample` on the positions `0..len`, with the
/// thread-local generator `rand::rng()`. As rand documents and its source shows,
/// the result holds `amount` distinct items of the iterator, or all of them when
/// there are fewer; which ones, and in what order, is left to chance.
#[verifier::external_body]
fn sample_positions(len: usize, amount: usize) -> (r: Vec<usize>)
    ensures
        r@.len() == if len < amount {
            len
        } else {
            amount
        },
        forall|i: int| 0 <= i < r@.len() ==> #[trigger] r@[i] < len,
        r@.no_duplicates(),
{
    (0..len).sample(&mut rand::rng(), amount)
}

/// The keys at the given positions whose values have expired at `now`, in the order
/// of the positions.
pub open spec fn expired_keys_among(
    m: Map<Seq<char>, ObjView>,
    order: Seq<Seq<char>>,
    picks: Seq<usize>,
    now: u128,
) -> Seq<Seq<char>>
    decreases picks.len(),
{
    if picks.len() == 0 {
        seq![]
    } else {
        let rest = expired_keys_among(m, order, picks.drop_last(), now);
        let k = order[picks.last() as int];
        if expired_at(m[k], now) {
            rest.push(k)
        } else {
            rest
        }
    }
}

proof fn lemma_expired_keys_len(
    m: Map<Seq<char>, ObjView>,
    order: Seq<Seq<char>>,
    picks: Seq<usize>,
    now: u128,
)
    ensures
        expired_keys_among(m, order, picks, now).len() <= picks.len(),
    decreases picks.len(),
{
    if picks.len() > 0 {
        lemma_expired_keys_len(m, order, picks.drop_last(), now);
    }
}

/// Each key that the expired keys among some positions holds is the key at one of
/// them.
proof fn lemma_expired_keys_from(
    m: Map<Seq<char>, ObjView>,
    order: Seq<Seq<char>>,
    picks: Seq<usize>,
    now: u128,
    a: int,
) -> (b: int)
    requires
        0 <= a < expired_keys_among(m, order, picks, now).len(),
    ensures
        0 <= b < picks.len(),
        expired_keys_among(m, order, picks, now)[a] == order[picks[b] as int],
        a == expired_keys_among(m, order, picks, now).len() - 1 ==> b == picks.len() - 1 || (
        expired_keys_among(m, order, picks.drop_last(), now).len() == expired_keys_among(
            m,
            order,
            picks,
            now,
        ).len()),
        a < expired_keys_among(m, order, picks.drop_last(), now).len() ==> b < picks.len() - 1,
    decreases picks.len(),
{
    let rest = expired_keys_among(m, order, picks.drop_last(), now);
    lemma_expired_keys_len(m, order, picks.drop_last(), now);
    if a < rest.len() {
        let b = lemma_expired_keys_from(m, order, picks.drop_last(), now, a);
        b
    } else {
        (picks.len() - 1) as int
    }
}

proof fn lemma_expired_keys_distinct(
    m: Map<Seq<char>, ObjView>,
    order: Seq<Seq<char>>,
    picks: Seq<usize>,
    now: u128,
    a: int,
    b: int,
)
    requires
        order.no_duplicates(),
        valid_picks(picks, order.len()),
        0 <= a < expired_keys_among(m, order, picks, now).len(),
        0 <= b < expired_keys_among(m, order, picks, now).len(),
        a != b,
    ensures
        expired_keys_among(m, order, picks, now)[a] != expired_keys_among(m, order, picks, now)[b],
    decreases picks.len(),
{
    let ks = expired_keys_among(m, order, picks, now);
    let rest = expired_keys_among(m, order, picks.drop_last(), now);
    lemma_expired_keys_len(m, order, picks.drop_last(), now);
    let pl = picks.drop_last();
    assert(valid_picks(pl, order.len())) by {
        assert forall|i: int| 0 <= i < pl.len() implies #[trigger] pl[i] < order.len() by {
            assert(pl[i] == picks[i]);
        }
    }
    if a < rest.len() && b < rest.len() {
        lemma_expired_keys_distinct(m, order, pl, now, a, b);
    } else {
        let (x, y) = if a < rest.len() {
            (a, b)
        } else {
            (b, a)
        };
        // `y` is the last key, at the last position; `x` comes from an earlier one.
        assert(x < rest.len());
        assert(y == rest.len() && ks.len() == rest.len() + 1);
        let bx = lemma_expired_keys_from(m, order, pl, now, x);
        assert(ks[x] == rest[x]);
        assert(ks[y] == order[picks.last() as int]);
        assert(pl[bx] == picks[bx]);
        assert(picks[bx] != picks[picks.len() - 1]);
        assert(order[picks[bx] as int] != order[picks[picks.len() - 1] as int]);
    }
}

proof fn lemma_to_set_push(s: Seq<Seq<char>>, x: Seq<char>)
    ensures
        s.push(x).to_set() == s.to_set().insert(x),
{
    let s1 = s.push(x);
    assert forall|y: Seq<char>| s1.contains(y) <==> (s.contains(y) || y == x) by {
        if s1.contains(y) {
            let w = choose|w: int| 0 <= w < s1.len() && s1[w] == y;
            if w < s.len() {
                assert(s[w] == y);
            }
        }
        if s.contains(y) {
            let w = choose|w: int| 0 <= w < s.len() && s[w] == y;
            assert(s1[w] == y);
        }
        if y == x {
            assert(s1[s.len() as int] == y);
        }
    }
    assert(s1.to_set() =~= s.to_set().insert(x));
}

/// Positions that are distinct and inside a sequence of length `len`.
pub open spec fn valid_picks(picks: Seq<usize>, len: nat) -> bool {
    &&& picks.no_duplicates()
    &&& forall|i: int| 0 <= i < picks.len() ==> #[trigger] picks[i] < len
}

/// The keys and values of a store, and the order of its keys.
pub struct StoreState {
    pub map: Map<Seq<char>, ObjView>,
    pub order: Seq<Seq<char>>,
}

impl Store {
    /// The keys and values, and the order of the keys.
    pub open spec fn state(self) -> StoreState {
        StoreState { map: self@, order: self.key_order() }
    }
}

/// The order of keys after putting `k`: the first key is evicted when above the
/// limit, and a new key goes last.
pub open spec fn put_order(order: Seq<Seq<char>>, k: Seq<char>) -> Seq<Seq<char>> {
    let base = if order.len() > default_max_key_limit() {
        order.drop_first()
    } else {
        order
    };
    if base.contains(k) {
        base
    } else {
        base.push(k)
    }
}

/// The state after putting `v` under `k`.
pub open spec fn st_put(st: StoreState, k: Seq<char>, v: ObjView) -> StoreState {
    StoreState { map: put_result(st.map, st.order, k, v), order: put_order(st.order, k) }
}

/// The state after removing `k`, when it is there.
pub open spec fn st_delete(st: StoreState, k: Seq<char>) -> StoreState {
    if st.map.contains_key(k) {
        StoreState { map: st.map.remove(k), order: st.order.remove(st.order.index_of(k)) }
    } else {
        st
    }
}

/// The map after putting `v` under `k`: evicting the first key when above the limit,
/// then inserting.
pub open spec fn put_result(
    m: Map<Seq<char>, ObjView>,
    order: Seq<Seq<char>>,
    k: Seq<char>,
    v: ObjView,
) -> Map<Seq<char>, ObjView> {
    let base = if order.len() > default_max_key_limit() {
        m.remove(order[0])
    } else {
        m
    };
    base.insert(k, v)
}

} // verus!
