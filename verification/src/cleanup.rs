use vstd::prelude::*;

use crate::store::{ObjView, Store, expired_at, expired_keys_among, valid_picks};
use crate::time::max_epoch_ms;

verus! {

/// When and how the background sweep of expired keys runs: every `freuqency_sec`
/// seconds, on samples of `sample_size` keys; `last_run_time` is when it last ran, in
/// milliseconds on the server's monotonic clock, which reads 0 when the server starts
/// (so that a step of the wall clock neither stalls nor hurries the sweep).
pub struct CleanupConfig {
    pub freuqency_sec: u64,
    pub sample_size: usize,
    pub last_run_time: u128,
}

impl CleanupConfig {
    /// A sweep every second on samples of 20 keys, last run at the start, when the
    /// monotonic clock reads 0.
    pub fn new() -> (c: Self)
        ensures
            c.freuqency_sec == 1,
            c.sample_size == 20,
            c.last_run_time == 0,
    {
        CleanupConfig { freuqency_sec: 1, sample_size: 20, last_run_time: 0 }
    }

    /// Whether a sweep is due at `now`: a full period has passed since the last one.
    pub fn is_due(&self, now: u128) -> (r: bool)
        ensures
            r == (self.last_run_time + self.freuqency_sec * 1000 <= now),
    {
        let period: u128 = self.freuqency_sec as u128 * 1000;
        if self.last_run_time > u128::MAX - period {
            false
        } else {
            self.last_run_time + period <= now
        }
    }
}

proof fn lemma_expired_keys_expired(
    m: Map<Seq<char>, ObjView>,
    order: Seq<Seq<char>>,
    picks: Seq<usize>,
    now: u128,
    k: Seq<char>,
)
    requires
        expired_keys_among(m, order, picks, now).contains(k),
    ensures
        expired_at(m[k], now),
    decreases picks.len(),
{
    let rest = expired_keys_among(m, order, picks.drop_last(), now);
    if picks.len() > 0 {
        let w = choose|w: int|
            0 <= w < expired_keys_among(m, order, picks, now).len() && expired_keys_among(
                m,
                order,
                picks,
                now,
            )[w] == k;
        if w < rest.len() {
            assert(rest[w] == k);
            lemma_expired_keys_expired(m, order, picks.drop_last(), now, k);
        }
    }
}

/// One round of the sweep on a store with keys `order` and values `before`: a
/// sample of `sample_size` distinct positions (all of them when there are fewer
/// keys) is taken, and the keys among them that have expired at some time `now` are
/// removed, giving `after`; `deleted` is how many were removed. The time `now` is
/// one the clock can read.
pub open spec fn sweep_round(
    before: Map<Seq<char>, ObjView>,
    order: Seq<Seq<char>>,
    after: Map<Seq<char>, ObjView>,
    sample_size: usize,
    deleted: nat,
) -> bool {
    exists|picks: Seq<usize>, now: u128|
        {
            &&& now <= max_epoch_ms()
            &&& valid_picks(picks, order.len())
            &&& picks.len() == if order.len() < sample_size {
                order.len()
            } else {
                sample_size as nat
            }
            &&& deleted == (#[trigger] expired_keys_among(before, order, picks, now)).len()
            &&& after == before.remove_keys(expired_keys_among(before, order, picks, now).to_set())
        }
}

/// A whole sweep: rounds one after another, round `j` running on the store
/// `ms[j]` (with keys `os[j]`, each once) and leaving `ms[j + 1]`, having removed
/// `ds[j]` keys; every round but the last removed at least a quarter of the sample
/// size, and the last removed fewer.
pub open spec fn sweep_chain(
    ms: Seq<Map<Seq<char>, ObjView>>,
    os: Seq<Seq<Seq<char>>>,
    ds: Seq<nat>,
    sample_size: usize,
) -> bool {
    &&& os.len() >= 1
    &&& ms.len() == os.len() + 1
    &&& ds.len() == os.len()
    &&& forall|j: int|
        #![trigger os[j]]
        0 <= j < os.len() ==> {
            &&& os[j].no_duplicates()
            &&& ms[j].dom() == os[j].to_set()
            &&& sweep_round(ms[j], os[j], ms[j + 1], sample_size, ds[j])
        }
    &&& forall|j: int| 0 <= j < ds.len() - 1 ==> #[trigger] ds[j] * 4 >= sample_size
    &&& ds.last() * 4 < sample_size
}

/// Sweeps expired keys: removes the expired keys among a random sample, again and
/// again, until a round removes fewer than a quarter of the sample size. Only keys
/// that have an expiry time are removed; every other key keeps its value.
pub fn cleanup_expired_keys(store: &mut Store, sample_size: usize)
    requires
        old(store).wf(),
        sample_size > 0,
    ensures
        final(store).wf(),
        forall|k: Seq<char>| #[trigger]
            final(store)@.contains_key(k) ==> old(store)@.contains_key(k) && final(store)@[k]
                == old(store)@[k],
        forall|k: Seq<char>| #[trigger]
            old(store)@.contains_key(k) && !final(store)@.contains_key(k) ==> old(
                store,
            )@[k].expires_at is Some,
        exists|ms: Seq<Map<Seq<char>, ObjView>>, os: Seq<Seq<Seq<char>>>, ds: Seq<nat>|
            #[trigger] sweep_chain(ms, os, ds, sample_size) && ms[0] == old(store)@ && ms.last()
                == final(store)@,
{
    let ghost mut ms: Seq<Map<Seq<char>, ObjView>> = seq![store@];
    let ghost mut os: Seq<Seq<Seq<char>>> = seq![];
    let ghost mut ds: Seq<nat> = seq![];
    loop
        invariant_except_break
            forall|j: int| 0 <= j < ds.len() ==> #[trigger] ds[j] * 4 >= sample_size,
        invariant
            store.wf(),
            sample_size > 0,
            forall|k: Seq<char>| #[trigger]
                store@.contains_key(k) ==> old(store)@.contains_key(k) && store@[k] == old(
                    store,
                )@[k],
            forall|k: Seq<char>| #[trigger]
                old(store)@.contains_key(k) && !store@.contains_key(k) ==> old(
                    store,
                )@[k].expires_at is Some,
            ms.len() == os.len() + 1,
            ds.len() == os.len(),
            ms[0] == old(store)@,
            ms.last() == store@,
            forall|j: int|
                #![trigger os[j]]
                0 <= j < os.len() ==> {
                    &&& os[j].no_duplicates()
                    &&& ms[j].dom() == os[j].to_set()
                    &&& sweep_round(ms[j], os[j], ms[j + 1], sample_size, ds[j])
                },
        ensures
            exists|ms: Seq<Map<Seq<char>, ObjView>>, os: Seq<Seq<Seq<char>>>, ds: Seq<nat>|
                #[trigger] sweep_chain(ms, os, ds, sample_size) && ms[0] == old(store)@ && ms.last()
                    == store@,
        decreases store.key_order().len(),
    {
        let ghost before = store@;
        let ghost before_order = store.key_order();
        proof {
            store.lemma_view();
        }
        let deleted = store.cleanup_expired_samples(sample_size);
        proof {
            let (picks, now) = choose|picks: Seq<usize>, now: u128|
                {
                    &&& now <= max_epoch_ms()
                    &&& crate::store::valid_picks(picks, before_order.len())
                    &&& picks.len() == if before_order.len() < sample_size {
                        before_order.len()
                    } else {
                        sample_size as nat
                    }
                    &&& deleted == expired_keys_among(before, before_order, picks, now).len()
                    &&& store@ == before.remove_keys(
                        expired_keys_among(before, before_order, picks, now).to_set(),
                    )
                };
            let ks = expired_keys_among(before, before_order, picks, now);
            assert forall|k: Seq<char>| #[trigger]
                old(store)@.contains_key(k) && !store@.contains_key(k) implies old(
                store,
            )@[k].expires_at is Some by {
                if before.contains_key(k) {
                    assert(ks.to_set().contains(k));
                    lemma_expired_keys_expired(before, before_order, picks, now, k);
                }
            }
            assert(sweep_round(before, before_order, store@, sample_size, deleted as nat));
            let ms0 = ms;
            let os0 = os;
            ms = ms.push(store@);
            os = os.push(before_order);
            ds = ds.push(deleted as nat);
            assert forall|j: int|
                #![trigger os[j]]
                0 <= j < os.len() implies {
                    &&& os[j].no_duplicates()
                    &&& ms[j].dom() == os[j].to_set()
                    &&& sweep_round(ms[j], os[j], ms[j + 1], sample_size, ds[j])
                } by {
                if j < os0.len() {
                    assert(os[j] == os0[j]);
                    assert(ms[j] == ms0[j] && ms[j + 1] == ms0[j + 1]);
                } else {
                    assert(ms[j] == before);
                }
            }
        }
        if (deleted as u128) * 4 < sample_size as u128 {
            proof {
                assert(sweep_chain(ms, os, ds, sample_size));
            }
            break;
        }
    }
}

} // verus!
