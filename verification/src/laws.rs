use vstd::prelude::*;

use crate::cmd::{RedisCmdType, spec_cmd_type};
use crate::config::default_max_key_limit;
use crate::eval::{
    EvalAll, cmd_fits, spec_eval_from,
    SetOptions, max_expire_secs, reply_bulk, reply_int, spec_eval_cmd, spec_eval_del,
    spec_eval_expire, spec_eval_get, spec_eval_set, spec_eval_ttl, spec_del_from,
    spec_set_options, spec_ttl,
};
use crate::aof::{set_cmd, spec_aof_dump, spec_aof_dump_keys};
use crate::resp::{
    RespErrorModel, RespModel, nil_bytes, ok_bytes, spec_arrays_from, spec_decode,
    spec_decode_all, spec_decode_array_string, spec_encode_cmd,
};
use crate::resp_laws::{bulk_models, lemma_cmd_roundtrip, lemma_strings_of_cmd};
use crate::store::{ObjView, StoreState, put_order, put_result, st_delete};
use crate::text::{lowercase, spec_parse_i64};
use crate::time::max_epoch_ms;

verus! {

// ---------------------------------------------------------------------------
// The store
// ---------------------------------------------------------------------------

/// After a value is put under a key, the key holds that value.
pub proof fn law_put_then_read(
    m: Map<Seq<char>, ObjView>,
    order: Seq<Seq<char>>,
    k: Seq<char>,
    v: ObjView,
)
    ensures
        put_result(m, order, k, v).contains_key(k),
        put_result(m, order, k, v)[k] == v,
{
}

/// Putting a key never takes the store more than one key above its limit.
pub proof fn law_put_bounds_size(order: Seq<Seq<char>>, k: Seq<char>)
    requires
        order.len() <= default_max_key_limit() + 1,
    ensures
        put_order(order, k).len() <= default_max_key_limit() + 1,
{
}

/// Putting a key that is already there, into a store at or under its limit, keeps
/// every other key with its value.
pub proof fn law_put_keeps_others(
    m: Map<Seq<char>, ObjView>,
    order: Seq<Seq<char>>,
    k: Seq<char>,
    v: ObjView,
    other: Seq<char>,
)
    requires
        order.len() <= default_max_key_limit(),
        other != k,
    ensures
        put_result(m, order, k, v).contains_key(other) == m.contains_key(other),
        m.contains_key(other) ==> put_result(m, order, k, v)[other] == m[other],
{
}

/// After a key is removed, it is absent and every other key is as it was.
pub proof fn law_delete_then_read(st: StoreState, k: Seq<char>, other: Seq<char>)
    requires
        other != k,
    ensures
        !st_delete(st, k).map.contains_key(k),
        st_delete(st, k).map.contains_key(other) == st.map.contains_key(other),
        st.map.contains_key(other) ==> st_delete(st, k).map[other] == st.map[other],
{
}

// ---------------------------------------------------------------------------
// Commands
// ---------------------------------------------------------------------------

/// `SET k v` replies OK, and a later `GET k` replies `v` and changes nothing.
pub proof fn law_set_then_get(k: Seq<char>, v: Seq<char>, st: StoreState, now1: u128, now2: u128)
    ensures
        spec_eval_set(seq![k, v], st, now1).0 == Ok::<Seq<u8>, Seq<char>>(ok_bytes()),
        spec_eval_get(seq![k], spec_eval_set(seq![k, v], st, now1).1, now2) == (
            Ok::<Seq<u8>, Seq<char>>(reply_bulk(v)),
            spec_eval_set(seq![k, v], st, now1).1,
        ),
{
    let args = seq![k, v];
    assert(spec_set_options(args, 2, None) == SetOptions::Duration(None));
}

/// `SET k v EX s` replies OK; `GET k` before `s` seconds have passed replies `v`, and
/// from then on replies nil and removes the key; `TTL k` right away replies `s`.
pub proof fn law_set_ex_then_get(
    k: Seq<char>,
    v: Seq<char>,
    ex: Seq<char>,
    secs: Seq<char>,
    s: i64,
    st: StoreState,
    now1: u128,
    now2: u128,
)
    requires
        lowercase(ex) == "ex"@,
        spec_parse_i64(secs) == Some(s),
        0 < s <= max_expire_secs(),
        now1 <= max_epoch_ms(),
    ensures
        ({
            let (r, st1) = spec_eval_set(seq![k, v, ex, secs], st, now1);
            &&& r == Ok::<Seq<u8>, Seq<char>>(ok_bytes())
            &&& now2 < now1 + s * 1000 ==> spec_eval_get(seq![k], st1, now2) == (
                Ok::<Seq<u8>, Seq<char>>(reply_bulk(v)),
                st1,
            )
            &&& now2 >= now1 + s * 1000 ==> spec_eval_get(seq![k], st1, now2) == (
                Ok::<Seq<u8>, Seq<char>>(nil_bytes()),
                st_delete(st1, k),
            )
            &&& spec_eval_ttl(seq![k], st1, now1) == Ok::<Seq<u8>, Seq<char>>(reply_int(s))
        }),
{
    let args = seq![k, v, ex, secs];
    assert(args[2] == ex && args[3] == secs);
    assert(spec_set_options(args, 4, Some((s * 1000) as u128)) == SetOptions::Duration(
        Some((s * 1000) as u128),
    ));
    assert(spec_set_options(args, 2, None) == SetOptions::Duration(Some((s * 1000) as u128)));
    let st1 = spec_eval_set(args, st, now1).1;
    assert(st1.map[k].expires_at == Some((now1 + s * 1000) as u128));
    assert(((now1 + s * 1000) - now1) / 1000 == s as int) by (nonlinear_arith)
        requires
            s > 0,
    ;
}

/// `SET k v` then `DEL k` replies 1, and a later `GET k` replies nil.
pub proof fn law_set_then_del(k: Seq<char>, v: Seq<char>, st: StoreState, now1: u128, now2: u128)
    ensures
        ({
            let st1 = spec_eval_set(seq![k, v], st, now1).1;
            let (r, st2) = spec_eval_del(seq![k], st1);
            &&& r == Ok::<Seq<u8>, Seq<char>>(reply_int(1))
            &&& !st2.map.contains_key(k)
            &&& spec_eval_get(seq![k], st2, now2) == (Ok::<Seq<u8>, Seq<char>>(nil_bytes()), st2)
        }),
{
    let args = seq![k, v];
    assert(spec_set_options(args, 2, None) == SetOptions::Duration(None));
    let st1 = spec_eval_set(args, st, now1).1;
    let d = seq![k];
    assert(spec_del_from(d, 1, st_delete(st1, k)) == (0nat, st_delete(st1, k)));
}

/// `EXPIRE k s` on a present key replies 1, and `TTL k` at the same time replies `s`.
pub proof fn law_expire_then_ttl(k: Seq<char>, secs: Seq<char>, s: i64, st: StoreState, now: u128)
    requires
        st.map.contains_key(k),
        spec_parse_i64(secs) == Some(s),
        0 < s <= max_expire_secs(),
        now <= max_epoch_ms(),
    ensures
        ({
            let (r, st1) = spec_eval_expire(seq![k, secs], st, now);
            &&& r == Ok::<Seq<u8>, Seq<char>>(reply_int(1))
            &&& spec_eval_ttl(seq![k], st1, now) == Ok::<Seq<u8>, Seq<char>>(reply_int(s))
        }),
{
    assert(((now + s * 1000) - now) / 1000 == s as int) by (nonlinear_arith)
        requires
            s > 0,
    ;
}

/// A command that is refused changes nothing and asks for no file.
pub proof fn law_refused_changes_nothing(
    name: Seq<char>,
    args: Seq<Seq<char>>,
    st: StoreState,
    now: u128,
)
    requires
        spec_eval_cmd(name, args, st, now).reply is Err,
    ensures
        spec_eval_cmd(name, args, st, now).state == st,
        spec_eval_cmd(name, args, st, now).dump is None,
{
    if spec_cmd_type(lowercase(name)) == Some(RedisCmdType::Del) {
        assert(args.len() == 0);
    }
}

/// TTL never changes the store, and reports -2 for an absent key.
pub proof fn law_ttl_of_absent(k: Seq<char>, st: StoreState, now: u128)
    requires
        !st.map.contains_key(k),
    ensures
        spec_ttl(st, k, now) == -2,
{
}


/// TTL of a key whose expiry time has come (at or before `now`) is -2, as for an
/// absent key; of a key without expiry it is -1; of a key that expires later it is
/// the whole seconds left, which is at least 0.
pub proof fn law_ttl_of_present(k: Seq<char>, st: StoreState, now: u128)
    requires
        st.map.contains_key(k),
    ensures
        st.map[k].expires_at is None ==> spec_eval_ttl(seq![k], st, now) == Ok::<
            Seq<u8>,
            Seq<char>,
        >(reply_int(-1i64)),
        (st.map[k].expires_at matches Some(t) && t <= now) ==> spec_eval_ttl(seq![k], st, now)
            == Ok::<Seq<u8>, Seq<char>>(reply_int(-2i64)),
        (st.map[k].expires_at matches Some(t) && now < t && (t - now) / 1000 <= i64::MAX) ==> (
        spec_eval_ttl(seq![k], st, now) == Ok::<Seq<u8>, Seq<char>>(
            reply_int(((st.map[k].expires_at->Some_0 - now) / 1000) as i64),
        )),
{
}

/// After `SET k v EX s` at `now1`, `TTL k` replies -2 at any time from `now1 + s`
/// seconds on.
pub proof fn law_set_ex_then_ttl_expired(
    k: Seq<char>,
    v: Seq<char>,
    ex: Seq<char>,
    secs: Seq<char>,
    s: i64,
    st: StoreState,
    now1: u128,
    now2: u128,
)
    requires
        lowercase(ex) == "ex"@,
        spec_parse_i64(secs) == Some(s),
        0 < s <= max_expire_secs(),
        now1 <= max_epoch_ms(),
        now2 >= now1 + s * 1000,
    ensures
        spec_eval_ttl(seq![k], spec_eval_set(seq![k, v, ex, secs], st, now1).1, now2) == Ok::<
            Seq<u8>,
            Seq<char>,
        >(reply_int(-2i64)),
{
    let args = seq![k, v, ex, secs];
    assert(args[2] == ex && args[3] == secs);
    assert(spec_set_options(args, 4, Some((s * 1000) as u128)) == SetOptions::Duration(
        Some((s * 1000) as u128),
    ));
    assert(spec_set_options(args, 2, None) == SetOptions::Duration(Some((s * 1000) as u128)));
}

proof fn lemma_tail_to_set(args: Seq<Seq<char>>, i: int)
    requires
        0 <= i < args.len(),
    ensures
        args.subrange(i, args.len() as int).to_set() == args.subrange(
            i + 1,
            args.len() as int,
        ).to_set().insert(args[i]),
{
    let a = args.subrange(i, args.len() as int);
    let b = args.subrange(i + 1, args.len() as int);
    assert forall|x: Seq<char>| a.contains(x) <==> (b.contains(x) || x == args[i]) by {
        if a.contains(x) {
            let j = choose|j: int| 0 <= j < a.len() && a[j] == x;
            if j > 0 {
                assert(b[j - 1] == x);
            }
        }
        if b.contains(x) {
            let j = choose|j: int| 0 <= j < b.len() && b[j] == x;
            assert(a[j + 1] == x);
        }
        if x == args[i] {
            assert(a[0] == x);
        }
    }
    assert(a.to_set() =~= b.to_set().insert(args[i]));
}

proof fn lemma_del_from(args: Seq<Seq<char>>, i: int, st: StoreState)
    requires
        0 <= i <= args.len(),
    ensures
        ({
            let tail = args.subrange(i, args.len() as int).to_set();
            &&& spec_del_from(args, i, st).1.map == st.map.remove_keys(tail)
            &&& spec_del_from(args, i, st).0 == tail.intersect(st.map.dom()).len()
        }),
    decreases args.len() - i,
{
    let tail = args.subrange(i, args.len() as int).to_set();
    if i == args.len() {
        assert(tail =~= Set::<Seq<char>>::empty());
        assert(st.map.remove_keys(tail) =~= st.map);
        assert(tail.intersect(st.map.dom()) =~= Set::<Seq<char>>::empty());
    } else {
        let a = args[i];
        let st1 = st_delete(st, a);
        lemma_del_from(args, i + 1, st1);
        lemma_tail_to_set(args, i);
        let rest = args.subrange(i + 1, args.len() as int).to_set();
        assert(rest.finite()) by {
            vstd::seq_lib::seq_to_set_is_finite(args.subrange(i + 1, args.len() as int));
        }
        assert(st1.map == st.map.remove(a)) by {
            if !st.map.contains_key(a) {
                assert(st.map.remove(a) =~= st.map);
            }
        }
        assert(st1.map.remove_keys(rest) =~= st.map.remove_keys(tail));
        let small = rest.intersect(st1.map.dom());
        assert(small.finite()) by {
            vstd::set::axiom_set_intersect_finite(rest, st1.map.dom());
        }
        if st.map.contains_key(a) {
            assert(tail.intersect(st.map.dom()) =~= small.insert(a));
            assert(!small.contains(a));
        } else {
            assert(tail.intersect(st.map.dom()) =~= small);
        }
    }
}

/// DEL removes every listed key and leaves every other key as it was; it replies how
/// many distinct listed keys were in the store.
pub proof fn law_del_removes_and_counts(args: Seq<Seq<char>>, st: StoreState)
    requires
        args.len() > 0,
    ensures
        ({
            let (r, st2) = spec_eval_del(args, st);
            &&& r == Ok::<Seq<u8>, Seq<char>>(
                reply_int(args.to_set().intersect(st.map.dom()).len() as i64),
            )
            &&& forall|k: Seq<char>| args.contains(k) ==> !#[trigger] st2.map.contains_key(k)
            &&& forall|k: Seq<char>|
                !args.contains(k) ==> (#[trigger] st2.map.contains_key(k) == st.map.contains_key(k)
                    && (st.map.contains_key(k) ==> st2.map[k] == st.map[k]))
        }),
{
    lemma_del_from(args, 0, st);
    assert(args.subrange(0, args.len() as int) =~= args);
}

/// EXPIRE never changes a value or the set of keys: it only gives the named key an
/// expiry time (when it is there and the seconds are positive); every other key is
/// untouched. So a GET of that key before the new expiry gives the value it had.
pub proof fn law_expire_keeps_values(
    args: Seq<Seq<char>>,
    st: StoreState,
    now: u128,
    now2: u128,
)
    ensures
        ({
            let (r, st2) = spec_eval_expire(args, st, now);
            &&& st2.map.dom() == st.map.dom()
            &&& st2.order == st.order
            &&& forall|k: Seq<char>| #[trigger]
                st.map.contains_key(k) ==> st2.map[k].val == st.map[k].val
            &&& forall|k: Seq<char>|
                #[trigger] st.map.contains_key(k) && (args.len() == 0 || k != args[0])
                    ==> st2.map[k] == st.map[k]
            &&& (args.len() > 1 && st.map.contains_key(args[0]) && r == Ok::<Seq<u8>, Seq<char>>(
                reply_int(1),
            ) && now2 < st2.map[args[0]].expires_at->Some_0) ==> spec_eval_get(
                seq![args[0]],
                st2,
                now2,
            ).0 == Ok::<Seq<u8>, Seq<char>>(reply_bulk(st.map[args[0]].val))
        }),
{
    let (r, st2) = spec_eval_expire(args, st, now);
    if args.len() > 1 && st.map.contains_key(args[0]) {
        if let Some(v) = spec_parse_i64(args[1]) {
            if v > 0 {
                assert(st2.map.dom() =~= st.map.dom());
            }
        }
    }
}

// ---------------------------------------------------------------------------
// Batches
// ---------------------------------------------------------------------------

/// What the first `k` commands of a batch do on their own.
pub open spec fn batch_prefix(
    cmds: Seq<(Seq<char>, Seq<Seq<char>>)>,
    k: int,
    st: StoreState,
    times: Seq<u128>,
) -> EvalAll {
    spec_eval_from(cmds.take(k), 0, st, times, seq![], seq![])
}

proof fn lemma_eval_prefix(
    cmds: Seq<(Seq<char>, Seq<Seq<char>>)>,
    p: int,
    i: int,
    st: StoreState,
    times: Seq<u128>,
    out: Seq<u8>,
    dumps: Seq<Seq<u8>>,
)
    requires
        0 <= i <= p <= cmds.len(),
        spec_eval_from(cmds.take(p), i, st, times, out, dumps).reply is Ok,
        !spec_eval_from(cmds.take(p), i, st, times, out, dumps).overflowed,
    ensures
        ({
            let r = spec_eval_from(cmds.take(p), i, st, times, out, dumps);
            spec_eval_from(cmds, i, st, times, out, dumps) == spec_eval_from(
                cmds,
                p,
                r.state,
                times,
                r.reply->Ok_0,
                r.dumps,
            )
        }),
    decreases p - i,
{
    if i < p {
        let pre = cmds.take(p);
        assert(pre[i] == cmds[i]);
        let step = spec_eval_cmd(cmds[i].0, cmds[i].1, st, times[i]);
        if cmd_fits(cmds[i].0, cmds[i].1, st) && step.reply is Ok {
            let d2 = match step.dump {
                Some(b) => dumps.push(b),
                None => dumps,
            };
            lemma_eval_prefix(cmds, p, i + 1, step.state, times, out + step.reply->Ok_0, d2);
        }
    }
}

/// In a batch, when the commands before the `k`-th all succeed and the `k`-th is
/// refused, the batch's reply is that error, the store is as the commands before it
/// left it, the files asked for are theirs, and the commands after it do not run.
pub proof fn law_first_error_stops_batch(
    cmds: Seq<(Seq<char>, Seq<Seq<char>>)>,
    k: int,
    st: StoreState,
    times: Seq<u128>,
)
    requires
        0 <= k < cmds.len(),
        batch_prefix(cmds, k, st, times).reply is Ok,
        !batch_prefix(cmds, k, st, times).overflowed,
        cmd_fits(cmds[k].0, cmds[k].1, batch_prefix(cmds, k, st, times).state),
        spec_eval_cmd(cmds[k].0, cmds[k].1, batch_prefix(cmds, k, st, times).state, times[k]).reply is Err,
    ensures
        ({
            let pre = batch_prefix(cmds, k, st, times);
            spec_eval_from(cmds, 0, st, times, seq![], seq![]) == (EvalAll {
                reply: spec_eval_cmd(cmds[k].0, cmds[k].1, pre.state, times[k]).reply,
                state: pre.state,
                dumps: pre.dumps,
                overflowed: false,
            })
        }),
{
    let pre = batch_prefix(cmds, k, st, times);
    lemma_eval_prefix(cmds, k, 0, st, times, seq![], seq![]);
    law_refused_changes_nothing(cmds[k].0, cmds[k].1, pre.state, times[k]);
}

// ---------------------------------------------------------------------------
// The append-only file
// ---------------------------------------------------------------------------

/// The commands that a rewritten append-only file holds: `SET key value` for each
/// key, in the store's order.
pub open spec fn aof_cmds(m: Map<Seq<char>, ObjView>, order: Seq<Seq<char>>) -> Seq<Seq<Seq<char>>> {
    Seq::new(order.len(), |i: int| set_cmd(order[i], m[order[i]].val))
}

proof fn lemma_aof_front(m: Map<Seq<char>, ObjView>, order: Seq<Seq<char>>)
    requires
        order.len() > 0,
    ensures
        spec_aof_dump_keys(m, order) == spec_encode_cmd(set_cmd(order[0], m[order[0]].val))
            + spec_aof_dump_keys(m, order.drop_first()),
    decreases order.len(),
{
    if order.len() == 1 {
        assert(order.drop_last() =~= Seq::<Seq<char>>::empty());
        assert(order.drop_first() =~= Seq::<Seq<char>>::empty());
        assert(spec_aof_dump_keys(m, order) =~= spec_encode_cmd(set_cmd(order[0], m[order[0]].val))
            + spec_aof_dump_keys(m, order.drop_first()));
    } else {
        lemma_aof_front(m, order.drop_last());
        assert(order.drop_last().drop_first() =~= order.drop_first().drop_last());
        assert(order.drop_first().last() == order.last());
        assert(order.drop_last()[0] == order[0]);
        assert(spec_aof_dump_keys(m, order) =~= spec_encode_cmd(set_cmd(order[0], m[order[0]].val))
            + spec_aof_dump_keys(m, order.drop_first()));
    }
}

proof fn lemma_aof_decodes(m: Map<Seq<char>, ObjView>, order: Seq<Seq<char>>)
    requires
        spec_aof_dump_keys(m, order).len() <= usize::MAX,
    ensures
        spec_decode_all(spec_aof_dump_keys(m, order)) == Ok::<Seq<RespModel>, RespErrorModel>(
            Seq::new(order.len(), |i: int| RespModel::Array(bulk_models(aof_cmds(m, order)[i]))),
        ),
    decreases order.len(),
{
    let want = Seq::new(order.len(), |i: int| RespModel::Array(bulk_models(aof_cmds(m, order)[i])));
    if order.len() == 0 {
        assert(spec_aof_dump_keys(m, order) =~= Seq::<u8>::empty());
        assert(want =~= Seq::<RespModel>::empty());
    } else {
        lemma_aof_front(m, order);
        let c0 = set_cmd(order[0], m[order[0]].val);
        let e0 = spec_encode_cmd(c0);
        let rest = spec_aof_dump_keys(m, order.drop_first());
        lemma_cmd_roundtrip(c0, rest);
        let d = spec_aof_dump_keys(m, order);
        assert(d.subrange(e0.len() as int, d.len() as int) =~= rest);
        lemma_aof_decodes(m, order.drop_first());
        let tail = order.drop_first();
        assert(aof_cmds(m, order)[0] == c0);
        assert(seq![RespModel::Array(bulk_models(c0))] + Seq::new(
            tail.len(),
            |i: int| RespModel::Array(bulk_models(aof_cmds(m, tail)[i])),
        ) =~= want) by {
            assert forall|i: int| 0 < i < order.len() implies aof_cmds(m, tail)[i - 1] == aof_cmds(
                m,
                order,
            )[i] by {
                assert(tail[i - 1] == order[i]);
            }
        }
    }
}

proof fn lemma_arrays_of_cmds(cmds: Seq<Seq<Seq<char>>>, i: int)
    requires
        0 <= i <= cmds.len(),
    ensures
        spec_arrays_from(Seq::new(cmds.len(), |j: int| RespModel::Array(bulk_models(cmds[j]))), i)
            == Ok::<Seq<Seq<Seq<char>>>, RespErrorModel>(cmds.subrange(i, cmds.len() as int)),
    decreases cmds.len() - i,
{
    let vals = Seq::new(cmds.len(), |j: int| RespModel::Array(bulk_models(cmds[j])));
    if i < cmds.len() {
        lemma_arrays_of_cmds(cmds, i + 1);
        lemma_strings_of_cmd(cmds[i]);
        assert(vals[i] == RespModel::Array(bulk_models(cmds[i])));
        assert(seq![cmds[i]] + cmds.subrange(i + 1, cmds.len() as int) =~= cmds.subrange(
            i,
            cmds.len() as int,
        ));
    } else {
        assert(cmds.subrange(i, cmds.len() as int) =~= Seq::<Seq<Seq<char>>>::empty());
    }
}

/// A rewritten append-only file reads back, through `decode_array_string`, as one
/// `SET key value` command per key of the store, in the store's order.
pub proof fn law_aof_reads_back(st: StoreState)
    requires
        st.order.len() > 0,
        spec_aof_dump(st).len() <= usize::MAX,
    ensures
        spec_decode_array_string(spec_aof_dump(st)) == Ok::<Seq<Seq<Seq<char>>>, RespErrorModel>(
            aof_cmds(st.map, st.order),
        ),
{
    lemma_aof_decodes(st.map, st.order);
    lemma_aof_front(st.map, st.order);
    let cmds = aof_cmds(st.map, st.order);
    lemma_arrays_of_cmds(cmds, 0);
    assert(cmds.subrange(0, cmds.len() as int) =~= cmds);
    assert(spec_decode(spec_aof_dump(st)) == spec_decode_all(spec_aof_dump(st)));
}

/// The state after replaying the arguments of each command through SET, in order,
/// at time `now`.
pub open spec fn replay_sets(cmds: Seq<Seq<Seq<char>>>, st: StoreState, now: u128) -> StoreState
    decreases cmds.len(),
{
    if cmds.len() == 0 {
        st
    } else {
        let c = cmds.last();
        spec_eval_set(c.subrange(1, c.len() as int), replay_sets(cmds.drop_last(), st, now), now).1
    }
}

/// The keys of `order`, each with its value from `m` and no expiry.
pub open spec fn restored(m: Map<Seq<char>, ObjView>, order: Seq<Seq<char>>) -> Map<
    Seq<char>,
    ObjView,
> {
    Map::new(|k: Seq<char>| order.contains(k), |k: Seq<char>| ObjView { val: m[k].val, expires_at: None })
}

proof fn lemma_replay(m: Map<Seq<char>, ObjView>, order: Seq<Seq<char>>, now: u128)
    requires
        order.no_duplicates(),
        order.len() <= default_max_key_limit() + 1,
    ensures
        replay_sets(aof_cmds(m, order), StoreState { map: Map::empty(), order: seq![] }, now)
            == (StoreState { map: restored(m, order), order }),
    decreases order.len(),
{
    let empty = StoreState { map: Map::empty(), order: seq![] };
    if order.len() == 0 {
        assert(restored(m, order) =~= Map::<Seq<char>, ObjView>::empty());
        assert(order =~= seq![]);
    } else {
        let init = order.drop_last();
        let k = order.last();
        assert(init.no_duplicates());
        lemma_replay(m, init, now);
        assert(aof_cmds(m, order).drop_last() =~= aof_cmds(m, init));
        let c = aof_cmds(m, order).last();
        assert(c == set_cmd(k, m[k].val));
        let args = c.subrange(1, c.len() as int);
        assert(args =~= seq![k, m[k].val]);
        assert(spec_set_options(args, 2, None) == SetOptions::Duration(None));
        assert(!init.contains(k));
        assert(init.push(k) =~= order);
        assert(restored(m, init).insert(k, ObjView { val: m[k].val, expires_at: None }) =~= restored(
            m,
            order,
        )) by {
            assert forall|x: Seq<char>| order.contains(x) <==> init.contains(x) || x == k by {
                if order.contains(x) && x != k {
                    let j = order.index_of(x);
                    assert(j != order.len() - 1);
                    assert(init[j] == x);
                }
                if init.contains(x) {
                    let j = init.index_of(x);
                    assert(order[j] == x);
                }
            }
        }
    }
}

/// Replaying a rewritten append-only file (the arguments of each of its SET
/// commands, through SET, in order) into an empty store restores every key with its
/// value, without expiry, in the same order, for a store of at most one key above
/// its limit.
pub proof fn law_aof_replay_restores(st: StoreState, now: u128)
    requires
        st.order.no_duplicates(),
        st.map.dom() == st.order.to_set(),
        st.order.len() <= default_max_key_limit() + 1,
    ensures
        ({
            let r = replay_sets(
                aof_cmds(st.map, st.order),
                StoreState { map: Map::empty(), order: seq![] },
                now,
            );
            &&& r.order == st.order
            &&& r.map.dom() == st.map.dom()
            &&& forall|k: Seq<char>| #[trigger] st.map.contains_key(k) ==> r.map[k] == (ObjView {
                val: st.map[k].val,
                expires_at: None,
            })
        }),
{
    lemma_replay(st.map, st.order, now);
    assert(restored(st.map, st.order).dom() =~= st.map.dom()) by {
        assert forall|k: Seq<char>| st.order.contains(k) <==> st.map.dom().contains(k) by {
            assert(st.order.to_set().contains(k) == st.order.contains(k));
        }
    }
}

} // verus!
