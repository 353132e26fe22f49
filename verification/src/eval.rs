use vstd::prelude::*;

use crate::aof::{aof_dump, spec_aof_dump};
use crate::cmd::{RedisCmd, RedisCmdType, spec_cmd_type};
use crate::resp::{
    RespModel, RespValue, encode, nil_bytes, ok_bytes, resp_nil, resp_ok, spec_encode,
    spec_encode_one, string_views,
};
use crate::store::{Obj, ObjView, Store, StoreState, expired_at, expiry_after, st_delete, st_put};
use crate::text::{ascii_lower, is_ascii_text, lowercase, parse_i64, spec_parse_i64, str_eq, to_lowercase};
use crate::time::{get_current_epoch_time, max_epoch_ms};

verus! {

/// Why a command was refused; the message goes back to the client as an error reply.
#[derive(Debug)]
pub struct EvalError {
    pub message: String,
}

// ---------------------------------------------------------------------------
// Messages and replies
// ---------------------------------------------------------------------------

pub open spec fn msg_args_ping() -> Seq<char> {
    "ERR wrong number of arguments for 'ping' command"@
}

pub open spec fn msg_args_set() -> Seq<char> {
    "ERR wrong number of arguments for 'set' command"@
}

pub open spec fn msg_args_get() -> Seq<char> {
    "ERR wrong number of arguments for 'get' command"@
}

pub open spec fn msg_args_ttl() -> Seq<char> {
    "ERR wrong number of arguments for 'ttl' command"@
}

pub open spec fn msg_args_del() -> Seq<char> {
    "ERR wrong number of arguments for 'del' command"@
}

pub open spec fn msg_args_expire() -> Seq<char> {
    "ERR wrong number of arguments for 'expire' command"@
}

pub open spec fn msg_args_bgrewriteaof() -> Seq<char> {
    "ERR wrong number of arguments for 'bgrewriteaof' command"@
}

pub open spec fn msg_syntax() -> Seq<char> {
    "ERR syntax error"@
}

pub open spec fn msg_not_integer() -> Seq<char> {
    "ERR value is not an integer or out of range"@
}

pub open spec fn msg_invalid_expire_set() -> Seq<char> {
    "ERR invalid expire time in 'set' command"@
}

/// An argument as the unknown-command message quotes it: `'arg',`.
pub open spec fn quoted(a: Seq<char>) -> Seq<char> {
    "'"@ + a + "',"@
}

/// The quoted arguments, separated by single spaces.
pub open spec fn quoted_args(args: Seq<Seq<char>>) -> Seq<char>
    decreases args.len(),
{
    if args.len() == 0 {
        seq![]
    } else if args.len() == 1 {
        quoted(args[0])
    } else {
        quoted_args(args.drop_last()) + " "@ + quoted(args.last())
    }
}

/// The message for a command the server does not know.
pub open spec fn msg_unknown(name: Seq<char>, args: Seq<Seq<char>>) -> Seq<char> {
    "ERR unknown command '"@ + name + "', with args beginning with: "@ + quoted_args(args)
}

/// The integer reply.
pub open spec fn reply_int(n: i64) -> Seq<u8> {
    spec_encode_one(RespModel::Integer(n))
}

/// The bulk string reply.
pub open spec fn reply_bulk(s: Seq<char>) -> Seq<u8> {
    spec_encode_one(RespModel::BulkString(s))
}

/// The largest number of seconds whose milliseconds fit an `i64`.
pub open spec fn max_expire_secs() -> i64 {
    9_223_372_036_854_775
}

// ---------------------------------------------------------------------------
// What each command does
// ---------------------------------------------------------------------------

/// PING: `PONG`, or the one argument echoed back.
pub open spec fn spec_eval_ping(args: Seq<Seq<char>>) -> Result<Seq<u8>, Seq<char>> {
    if args.len() > 1 {
        Err(msg_args_ping())
    } else if args.len() == 0 {
        Ok(spec_encode_one(RespModel::SimpleString("PONG"@)))
    } else {
        Ok(reply_bulk(args[0]))
    }
}

/// The outcome of reading the options of SET.
pub enum SetOptions {
    /// The options are valid; the expiry duration in milliseconds, if any.
    Duration(Option<u128>),
    /// The options are invalid; the error message.
    Fail(Seq<char>),
    /// A number of seconds whose milliseconds do not fit an `i64`.
    Overflow,
}

/// Reading SET's options from position `i` on, with `lower` for lowercasing: each is
/// `EX` (in any case) followed by a positive number of seconds; the last one counts.
pub open spec fn set_options_with(
    args: Seq<Seq<char>>,
    i: int,
    dur: Option<u128>,
    lower: spec_fn(Seq<char>) -> Seq<char>,
) -> SetOptions
    decreases args.len() - i,
{
    if i < 0 || i >= args.len() {
        SetOptions::Duration(dur)
    } else if lower(args[i]) == "ex"@ {
        if i + 1 >= args.len() {
            SetOptions::Fail(msg_syntax())
        } else {
            match spec_parse_i64(args[i + 1]) {
                None => SetOptions::Fail(msg_not_integer()),
                Some(v) => if v <= 0 {
                    SetOptions::Fail(msg_invalid_expire_set())
                } else if v > max_expire_secs() {
                    SetOptions::Overflow
                } else {
                    set_options_with(args, i + 2, Some((v * 1000) as u128), lower)
                },
            }
        }
    } else {
        SetOptions::Fail(msg_syntax())
    }
}

/// Reading SET's options from position `i` on, lowercasing as `str::to_lowercase`
/// does.
pub open spec fn spec_set_options(args: Seq<Seq<char>>, i: int, dur: Option<u128>) -> SetOptions {
    set_options_with(args, i, dur, |t: Seq<char>| lowercase(t))
}

/// Every argument from position `i` on is ASCII text.
pub open spec fn ascii_from(args: Seq<Seq<char>>, i: int) -> bool {
    forall|j: int| i <= j < args.len() ==> is_ascii_text(#[trigger] args[j])
}

/// SET key value [EX seconds]: stores the value, expiring after the duration.
pub open spec fn spec_eval_set(args: Seq<Seq<char>>, st: StoreState, now: u128) -> (
    Result<Seq<u8>, Seq<char>>,
    StoreState,
) {
    if args.len() <= 1 {
        (Err(msg_args_set()), st)
    } else {
        match spec_set_options(args, 2, None) {
            SetOptions::Duration(d) => (
                Ok(ok_bytes()),
                st_put(st, args[0], ObjView { val: args[1], expires_at: expiry_after(d, now) }),
            ),
            SetOptions::Fail(m) => (Err(m), st),
            SetOptions::Overflow => (Err(msg_syntax()), st),
        }
    }
}

/// GET key: the value, or nil when absent or expired; an expired key is removed.
pub open spec fn spec_eval_get(args: Seq<Seq<char>>, st: StoreState, now: u128) -> (
    Result<Seq<u8>, Seq<char>>,
    StoreState,
) {
    if args.len() != 1 {
        (Err(msg_args_get()), st)
    } else if !st.map.contains_key(args[0]) {
        (Ok(nil_bytes()), st)
    } else if expired_at(st.map[args[0]], now) {
        (Ok(nil_bytes()), st_delete(st, args[0]))
    } else {
        (Ok(reply_bulk(st.map[args[0]].val)), st)
    }
}

/// The time to live that TTL reports: -2 for an absent or expired key, -1 for a key
/// without expiry, else the whole seconds left.
pub open spec fn spec_ttl(st: StoreState, k: Seq<char>, now: u128) -> i64 {
    if !st.map.contains_key(k) {
        -2i64
    } else {
        match st.map[k].expires_at {
            None => -1i64,
            Some(t) => if t <= now {
                -2i64
            } else {
                ((t - now) / 1000) as i64
            },
        }
    }
}

/// TTL key.
pub open spec fn spec_eval_ttl(args: Seq<Seq<char>>, st: StoreState, now: u128) -> Result<
    Seq<u8>,
    Seq<char>,
> {
    if args.len() != 1 {
        Err(msg_args_ttl())
    } else {
        Ok(reply_int(spec_ttl(st, args[0], now)))
    }
}

/// Deleting the keys from position `i` on, one after another: how many were there,
/// and the state after.
pub open spec fn spec_del_from(args: Seq<Seq<char>>, i: int, st: StoreState) -> (nat, StoreState)
    decreases args.len() - i,
{
    if i < 0 || i >= args.len() {
        (0, st)
    } else {
        let found: nat = if st.map.contains_key(args[i]) {
            1
        } else {
            0
        };
        let (n, after) = spec_del_from(args, i + 1, st_delete(st, args[i]));
        (n + found, after)
    }
}

/// DEL key [key ...]: removes the keys; replies how many were there.
pub open spec fn spec_eval_del(args: Seq<Seq<char>>, st: StoreState) -> (
    Result<Seq<u8>, Seq<char>>,
    StoreState,
) {
    if args.len() == 0 {
        (Err(msg_args_del()), st)
    } else {
        let (n, after) = spec_del_from(args, 0, st);
        (Ok(reply_int(n as i64)), after)
    }
}

/// EXPIRE key seconds: for a present key and a positive number, the key expires that
/// many seconds after `now` (reply 1); otherwise 0, or an error for a number that
/// does not parse.
pub open spec fn spec_eval_expire(args: Seq<Seq<char>>, st: StoreState, now: u128) -> (
    Result<Seq<u8>, Seq<char>>,
    StoreState,
) {
    if args.len() <= 1 {
        (Err(msg_args_expire()), st)
    } else if !st.map.contains_key(args[0]) {
        (Ok(reply_int(0)), st)
    } else {
        match spec_parse_i64(args[1]) {
            None => (Err(msg_not_integer()), st),
            Some(v) => if v <= 0 {
                (Ok(reply_int(0)), st)
            } else {
                (
                    Ok(reply_int(1)),
                    StoreState {
                        map: st.map.insert(
                            args[0],
                            ObjView {
                                val: st.map[args[0]].val,
                                expires_at: Some((now + v * 1000) as u128),
                            },
                        ),
                        order: st.order,
                    },
                )
            },
        }
    }
}

/// BGREWRITEAOF: replies OK and asks for the append-only file to be rewritten from
/// the store as it is.
pub open spec fn spec_eval_bgrewriteaof(args: Seq<Seq<char>>, st: StoreState) -> (
    Result<Seq<u8>, Seq<char>>,
    Option<Seq<u8>>,
) {
    if args.len() != 0 {
        (Err(msg_args_bgrewriteaof()), None)
    } else {
        (Ok(ok_bytes()), Some(spec_aof_dump(st)))
    }
}

/// What one command does: its reply or error, the state after, and the append-only
/// file to write, if it asks for one.
pub struct EvalStep {
    pub reply: Result<Seq<u8>, Seq<char>>,
    pub state: StoreState,
    pub dump: Option<Seq<u8>>,
}

/// What one command does, at time `now`.
pub open spec fn spec_eval_cmd(
    name: Seq<char>,
    args: Seq<Seq<char>>,
    st: StoreState,
    now: u128,
) -> EvalStep {
    match spec_cmd_type(lowercase(name)) {
        Some(RedisCmdType::Ping) => EvalStep { reply: spec_eval_ping(args), state: st, dump: None },
        Some(RedisCmdType::SetKey) => {
            let (r, s) = spec_eval_set(args, st, now);
            EvalStep { reply: r, state: s, dump: None }
        },
        Some(RedisCmdType::Get) => {
            let (r, s) = spec_eval_get(args, st, now);
            EvalStep { reply: r, state: s, dump: None }
        },
        Some(RedisCmdType::Ttl) => EvalStep {
            reply: spec_eval_ttl(args, st, now),
            state: st,
            dump: None,
        },
        Some(RedisCmdType::Del) => {
            let (r, s) = spec_eval_del(args, st);
            EvalStep { reply: r, state: s, dump: None }
        },
        Some(RedisCmdType::Expire) => {
            let (r, s) = spec_eval_expire(args, st, now);
            EvalStep { reply: r, state: s, dump: None }
        },
        Some(RedisCmdType::BgRewriteAOF) => {
            let (r, d) = spec_eval_bgrewriteaof(args, st);
            EvalStep { reply: r, state: st, dump: d }
        },
        _ => EvalStep { reply: Err(msg_unknown(name, args)), state: st, dump: None },
    }
}

/// The arithmetic of a command stays inside its integer types, on a store in state
/// `st`: the milliseconds of SET's seconds fit an `i64`; so do those of EXPIRE's
/// positive seconds when the key is there (for an absent key EXPIRE replies 0
/// without reading them); and DEL's count fits an `i64`.
pub open spec fn cmd_fits(name: Seq<char>, args: Seq<Seq<char>>, st: StoreState) -> bool {
    let t = spec_cmd_type(lowercase(name));
    &&& t == Some(RedisCmdType::SetKey) && args.len() > 1 ==> !(spec_set_options(args, 2, None) is Overflow)
    &&& t == Some(RedisCmdType::Expire) && args.len() > 1 && st.map.contains_key(args[0]) ==> (
    spec_parse_i64(args[1]) matches Some(v) ==> v <= max_expire_secs())
    &&& t == Some(RedisCmdType::Del) ==> args.len() <= i64::MAX
}

/// What a batch of commands does from position `i` on, with `out` the replies so far
/// and `dumps` the append-only files asked for so far: the first error stops it and
/// becomes the whole reply. A command whose arithmetic would overflow (see
/// `cmd_fits`) also stops it, before it runs: `overflowed` is then set, and `reply`
/// holds the replies before it.
pub struct EvalAll {
    pub reply: Result<Seq<u8>, Seq<char>>,
    pub state: StoreState,
    pub dumps: Seq<Seq<u8>>,
    pub overflowed: bool,
}

pub open spec fn spec_eval_from(
    cmds: Seq<(Seq<char>, Seq<Seq<char>>)>,
    i: int,
    st: StoreState,
    times: Seq<u128>,
    out: Seq<u8>,
    dumps: Seq<Seq<u8>>,
) -> EvalAll
    decreases cmds.len() - i,
{
    if i < 0 || i >= cmds.len() {
        EvalAll { reply: Ok(out), state: st, dumps, overflowed: false }
    } else if !cmd_fits(cmds[i].0, cmds[i].1, st) {
        EvalAll { reply: Ok(out), state: st, dumps, overflowed: true }
    } else {
        let step = spec_eval_cmd(cmds[i].0, cmds[i].1, st, times[i]);
        let d2 = match step.dump {
            Some(b) => dumps.push(b),
            None => dumps,
        };
        match step.reply {
            Err(e) => EvalAll { reply: Err(e), state: step.state, dumps: d2, overflowed: false },
            Ok(b) => spec_eval_from(cmds, i + 1, step.state, times, out + b, d2),
        }
    }
}


// ---------------------------------------------------------------------------
// Evaluation
// ---------------------------------------------------------------------------

/// A reply or error, as bytes and characters.
pub open spec fn reply_model(r: Result<Vec<u8>, EvalError>) -> Result<Seq<u8>, Seq<char>> {
    match r {
        Ok(b) => Ok(b@),
        Err(e) => Err(e.message@),
    }
}

/// The commands, as names and arguments.
pub open spec fn cmd_views(cmds: Seq<RedisCmd>) -> Seq<(Seq<char>, Seq<Seq<char>>)> {
    Seq::new(cmds.len(), |i: int| cmds[i]@)
}

/// The bytes of each buffer.
pub open spec fn byte_views(v: Seq<Vec<u8>>) -> Seq<Seq<u8>> {
    Seq::new(v.len(), |i: int| v[i]@)
}

fn fail(msg: &str) -> (r: Result<Vec<u8>, EvalError>)
    ensures
        reply_model(r) == Err::<Seq<u8>, Seq<char>>(msg@),
{
    Err(EvalError { message: String::from_str(msg) })
}

fn reply_value(v: RespValue) -> (r: Result<Vec<u8>, EvalError>)
    ensures
        reply_model(r) == Ok::<Seq<u8>, Seq<char>>(spec_encode(v.model())),
{
    match encode(v) {
        Ok(b) => Ok(b),
        Err(_) => Err(EvalError { message: String::new() }),
    }
}

/// PING [message].
pub fn eval_ping(args: &[String]) -> (r: Result<Vec<u8>, EvalError>)
    ensures
        reply_model(r) == spec_eval_ping(string_views(args@)),
{
    if args.len() > 1 {
        return fail("ERR wrong number of arguments for 'ping' command");
    }
    if args.len() == 0 {
        reply_value(RespValue::SimpleString(String::from_str("PONG")))
    } else {
        reply_value(RespValue::BulkString(args[0].clone()))
    }
}

/// The outcome of reading SET's options.
pub enum SetOptionsOutcome {
    Duration(Option<u128>),
    Fail(String),
    Overflow,
}

impl SetOptionsOutcome {
    pub open spec fn model(self) -> SetOptions {
        match self {
            SetOptionsOutcome::Duration(d) => SetOptions::Duration(d),
            SetOptionsOutcome::Fail(m) => SetOptions::Fail(m@),
            SetOptionsOutcome::Overflow => SetOptions::Overflow,
        }
    }
}

/// Whether an already lowercased SET option is `ex`.
pub fn is_ex_option(lowered: &str) -> (r: bool)
    ensures
        r == (lowered@ == "ex"@),
{
    str_eq(lowered, "ex")
}

/// Reads SET's options, from the third argument on.
pub fn read_set_options(args: &[String]) -> (r: SetOptionsOutcome)
    ensures
        r.model() == spec_set_options(string_views(args@), 2, None),
        r matches SetOptionsOutcome::Duration(Some(d)) ==> d <= max_expire_secs() * 1000,
        ascii_from(string_views(args@), 2) ==> r.model() == set_options_with(
            string_views(args@),
            2,
            None,
            |t: Seq<char>| ascii_lower(t),
        ),
{
    let ghost v = string_views(args@);
    let ghost al = |t: Seq<char>| ascii_lower(t);
    let mut duration_ms: Option<u128> = None;
    let mut i: usize = 2;
    while i < args.len()
        invariant
            v == string_views(args@),
            al == (|t: Seq<char>| ascii_lower(t)),
            2 <= i,
            spec_set_options(v, 2, None) == spec_set_options(v, i as int, duration_ms),
            ascii_from(v, 2) ==> set_options_with(v, 2, None, al) == set_options_with(
                v,
                i as int,
                duration_ms,
                al,
            ),
            duration_ms matches Some(d) ==> d <= max_expire_secs() * 1000,
        decreases args@.len() - i,
    {
        let opt = to_lowercase(args[i].as_str());
        proof {
            assert(v[i as int] == args@[i as int]@);
            if ascii_from(v, 2) {
                assert(is_ascii_text(v[i as int]));
            }
        }
        if !is_ex_option(opt.as_str()) {
            return SetOptionsOutcome::Fail(String::from_str("ERR syntax error"));
        }
        i = i + 1;
        if i >= args.len() {
            return SetOptionsOutcome::Fail(String::from_str("ERR syntax error"));
        }
        match parse_i64(args[i].as_str()) {
            None => {
                return SetOptionsOutcome::Fail(
                    String::from_str("ERR value is not an integer or out of range"),
                );
            },
            Some(duration_sec) => {
                if duration_sec <= 0 {
                    return SetOptionsOutcome::Fail(
                        String::from_str("ERR invalid expire time in 'set' command"),
                    );
                }
                if duration_sec > 9_223_372_036_854_775 {
                    return SetOptionsOutcome::Overflow;
                }
                duration_ms = Some((duration_sec * 1000) as u128);
            },
        }
        i = i + 1;
    }
    SetOptionsOutcome::Duration(duration_ms)
}

/// SET key value [EX seconds], at time `now`.
pub fn eval_set(args: &[String], store: &mut Store, now: u128) -> (r: Result<Vec<u8>, EvalError>)
    requires
        old(store).wf(),
        now <= max_epoch_ms(),
        args@.len() > 1 ==> !(spec_set_options(string_views(args@), 2, None) is Overflow),
    ensures
        final(store).wf(),
        (reply_model(r), final(store).state()) == spec_eval_set(
            string_views(args@),
            old(store).state(),
            now,
        ),
        args@.len() > 1 && ascii_from(string_views(args@), 2) ==> spec_set_options(
            string_views(args@),
            2,
            None,
        ) == set_options_with(string_views(args@), 2, None, |t: Seq<char>| ascii_lower(t)),
{
    if args.len() <= 1 {
        return fail("ERR wrong number of arguments for 'set' command");
    }
    match read_set_options(args) {
        SetOptionsOutcome::Fail(m) => Err(EvalError { message: m }),
        SetOptionsOutcome::Overflow => fail("ERR syntax error"),
        SetOptionsOutcome::Duration(duration_ms) => {
            let key = args[0].clone();
            let val = args[1].clone();
            let obj = Obj::new_at(val, duration_ms, now);
            store.put(key, obj);
            Ok(resp_ok())
        },
    }
}

/// GET key, at time `now`.
pub fn eval_get(args: &[String], store: &mut Store, now: u128) -> (r: Result<Vec<u8>, EvalError>)
    requires
        old(store).wf(),
    ensures
        final(store).wf(),
        (reply_model(r), final(store).state()) == spec_eval_get(
            string_views(args@),
            old(store).state(),
            now,
        ),
{
    if args.len() != 1 {
        return fail("ERR wrong number of arguments for 'get' command");
    }
    let key = &args[0];
    let (found, expired, val) = match store.get(key) {
        Some(obj) => {
            let expired = match obj.expires_at {
                Some(t) => t <= now,
                None => false,
            };
            (true, expired, obj.val.clone())
        },
        None => (false, false, String::new()),
    };
    if found && expired {
        store.delete(key);
    }
    if found && !expired {
        reply_value(RespValue::BulkString(val))
    } else {
        Ok(resp_nil())
    }
}

/// TTL key, at time `now`.
pub fn eval_ttl(args: &[String], store: &Store, now: u128) -> (r: Result<Vec<u8>, EvalError>)
    requires
        store.wf(),
    ensures
        reply_model(r) == spec_eval_ttl(string_views(args@), store.state(), now),
{
    if args.len() != 1 {
        return fail("ERR wrong number of arguments for 'ttl' command");
    }
    let ttl: i64 = match store.get(&args[0]) {
        Some(obj) => match obj.expires_at {
            None => -1,
            Some(t) => if t <= now {
                -2
            } else {
                ((t - now) / 1000) as i64
            },
        },
        None => -2,
    };
    reply_value(RespValue::Integer(ttl))
}

/// DEL key [key ...].
pub fn eval_del(args: &[String], store: &mut Store) -> (r: Result<Vec<u8>, EvalError>)
    requires
        old(store).wf(),
        args@.len() <= i64::MAX,
    ensures
        final(store).wf(),
        (reply_model(r), final(store).state()) == spec_eval_del(
            string_views(args@),
            old(store).state(),
        ),
{
    if args.len() == 0 {
        return fail("ERR wrong number of arguments for 'del' command");
    }
    let ghost v = string_views(args@);
    let mut total_deleted_count: i64 = 0;
    let mut i: usize = 0;
    while i < args.len()
        invariant
            v == string_views(args@),
            args@.len() <= i64::MAX,
            store.wf(),
            i <= args@.len(),
            0 <= total_deleted_count <= i,
            spec_del_from(v, 0, old(store).state()) == (
                (total_deleted_count + spec_del_from(v, i as int, store.state()).0) as nat,
                spec_del_from(v, i as int, store.state()).1,
            ),
        decreases args@.len() - i,
    {
        let ghost before = store.state();
        if store.delete(&args[i]) {
            total_deleted_count = total_deleted_count + 1;
        }
        i = i + 1;
    }
    reply_value(RespValue::Integer(total_deleted_count))
}

/// EXPIRE key seconds, at time `now`.
pub fn eval_expire(args: &[String], store: &mut Store, now: u128) -> (r: Result<Vec<u8>, EvalError>)
    requires
        old(store).wf(),
        now <= max_epoch_ms(),
        args@.len() > 1 && old(store)@.contains_key(string_views(args@)[0]) ==> (spec_parse_i64(
            string_views(args@)[1],
        ) matches Some(v) ==> v <= max_expire_secs()),
    ensures
        final(store).wf(),
        (reply_model(r), final(store).state()) == spec_eval_expire(
            string_views(args@),
            old(store).state(),
            now,
        ),
{
    if args.len() <= 1 {
        return fail("ERR wrong number of arguments for 'expire' command");
    }
    let ghost m0 = store@;
    let key = &args[0];
    match store.get_mut(key) {
        None => reply_value(RespValue::Integer(0)),
        Some(obj) => {
            match parse_i64(args[1].as_str()) {
                None => {
                    proof {
                        assert(m0.insert(key@, obj@) =~= m0);
                    }
                    fail("ERR value is not an integer or out of range")
                },
                Some(duration_sec) => {
                    if duration_sec <= 0 {
                        proof {
                            assert(m0.insert(key@, obj@) =~= m0);
                        }
                        reply_value(RespValue::Integer(0))
                    } else {
                        obj.expires_at = Some(now + ((duration_sec * 1000) as u128));
                        reply_value(RespValue::Integer(1))
                    }
                },
            }
        },
    }
}

/// BGREWRITEAOF: replies OK, and gives the rewritten append-only file to write.
pub fn eval_bgrewriteaof(args: &[String], store: &Store) -> (r: (
    Result<Vec<u8>, EvalError>,
    Option<Vec<u8>>,
))
    requires
        store.wf(),
    ensures
        (reply_model(r.0), match r.1 {
            Some(b) => Some(b@),
            None => None,
        }) == spec_eval_bgrewriteaof(string_views(args@), store.state()),
{
    if args.len() != 0 {
        return (fail("ERR wrong number of arguments for 'bgrewriteaof' command"), None);
    }
    let dump = aof_dump(store);
    (Ok(resp_ok()), Some(dump))
}

/// The message for a command the server does not know.
fn unknown_command(cmd: &RedisCmd) -> (r: Result<Vec<u8>, EvalError>)
    ensures
        reply_model(r) == Err::<Seq<u8>, Seq<char>>(msg_unknown(cmd@.0, cmd@.1)),
{
    let ghost v = string_views(cmd.args@);
    let mut m = String::from_str("ERR unknown command '");
    m.append(cmd.cmd.as_str());
    m.append("', with args beginning with: ");
    let ghost head = m@;
    let mut j: usize = 0;
    assert(v.take(0) =~= Seq::<Seq<char>>::empty());
    assert(m@ =~= head + quoted_args(v.take(0)));
    while j < cmd.args.len()
        invariant
            v == string_views(cmd.args@),
            j <= v.len(),
            m@ == head + quoted_args(v.take(j as int)),
        decreases v.len() - j,
    {
        let ghost before = m@;
        if j > 0 {
            m.append(" ");
        }
        m.append("'");
        m.append(cmd.args[j].as_str());
        m.append("',");
        proof {
            let t1 = v.take(j + 1);
            assert(t1.drop_last() =~= v.take(j as int));
            assert(t1.last() == v[j as int]);
            if j == 0 {
                assert(m@ =~= head + quoted_args(t1));
            } else {
                assert(m@ =~= head + quoted_args(t1));
            }
        }
        j = j + 1;
    }
    assert(v.take(v.len() as int) =~= v);
    Err(EvalError { message: m })
}

/// One command, at time `now`: its reply or error, and the append-only file to
/// write, if it asks for one.
pub fn eval_cmd(cmd: &RedisCmd, store: &mut Store, now: u128) -> (r: (
    Result<Vec<u8>, EvalError>,
    Option<Vec<u8>>,
))
    requires
        old(store).wf(),
        now <= max_epoch_ms(),
        cmd_fits(cmd@.0, cmd@.1, old(store).state()),
    ensures
        final(store).wf(),
        spec_eval_cmd(cmd@.0, cmd@.1, old(store).state(), now) == (EvalStep {
            reply: reply_model(r.0),
            state: final(store).state(),
            dump: match r.1 {
                Some(b) => Some(b@),
                None => None,
            },
        }),
{
    let args = cmd.args.as_slice();
    match RedisCmdType::parse(cmd.cmd.as_str()) {
        Some(RedisCmdType::Ping) => (eval_ping(args), None),
        Some(RedisCmdType::SetKey) => (eval_set(args, store, now), None),
        Some(RedisCmdType::Get) => (eval_get(args, store, now), None),
        Some(RedisCmdType::Ttl) => (eval_ttl(args, store, now), None),
        Some(RedisCmdType::Del) => (eval_del(args, store), None),
        Some(RedisCmdType::Expire) => (eval_expire(args, store, now), None),
        Some(RedisCmdType::BgRewriteAOF) => eval_bgrewriteaof(args, store),
        _ => (unknown_command(cmd), None),
    }
}


/// Whether a command's arithmetic stays inside its integer types on this store (see
/// `cmd_fits`).
pub fn check_cmd_fits(cmd: &RedisCmd, store: &Store) -> (r: bool)
    requires
        store.wf(),
    ensures
        r == cmd_fits(cmd@.0, cmd@.1, store.state()),
{
    let args = cmd.args.as_slice();
    match RedisCmdType::parse(cmd.cmd.as_str()) {
        Some(RedisCmdType::SetKey) => {
            if args.len() > 1 {
                match read_set_options(args) {
                    SetOptionsOutcome::Overflow => false,
                    _ => true,
                }
            } else {
                true
            }
        },
        Some(RedisCmdType::Expire) => {
            if args.len() > 1 && store.get(&args[0]).is_some() {
                match parse_i64(args[1].as_str()) {
                    Some(v) => v <= 9_223_372_036_854_775,
                    None => true,
                }
            } else {
                true
            }
        },
        Some(RedisCmdType::Del) => args.len() as u128 <= 0x7fff_ffff_ffff_ffff,
        _ => true,
    }
}

/// The outcome of a batch of commands: the replies one after another, or the first
/// error; the append-only files that BGREWRITEAOF asked for, in order; and whether
/// the batch stopped at a command whose arithmetic would overflow (`reply` then holds
/// the replies before it).
pub struct Evaluation {
    pub reply: Result<Vec<u8>, EvalError>,
    pub aof_dumps: Vec<Vec<u8>>,
    pub overflowed: bool,
}

/// Evaluates a batch of commands in order, each at the time the clock reads when it
/// starts. The replies are gathered; the first error stops the batch and is the
/// whole reply, the changes made before it staying in the store.
pub fn eval_and_respond(cmds: &Vec<RedisCmd>, store: &mut Store) -> (r: Evaluation)
    requires
        old(store).wf(),
    ensures
        final(store).wf(),
        exists|times: Seq<u128>|
            {
                &&& times.len() == cmds@.len()
                &&& forall|i: int| 0 <= i < times.len() ==> #[trigger] times[i] <= max_epoch_ms()
                &&& spec_eval_from(cmd_views(cmds@), 0, old(store).state(), times, seq![], seq![])
                    == (EvalAll {
                    reply: reply_model(r.reply),
                    state: final(store).state(),
                    dumps: byte_views(r.aof_dumps@),
                    overflowed: r.overflowed,
                })
            },
{
    let ghost cv = cmd_views(cmds@);
    let ghost st0 = store.state();
    let ghost n = cmds@.len();
    let ghost mut times: Seq<u128> = seq![];
    let mut buf: Vec<u8> = Vec::new();
    let mut dumps: Vec<Vec<u8>> = Vec::new();
    let mut i: usize = 0;
    assert(byte_views(dumps@) =~= Seq::<Seq<u8>>::empty());
    while i < cmds.len()
        invariant
            cv == cmd_views(cmds@),
            n == cmds@.len(),
            st0 == old(store).state(),
            store.wf(),
            i <= n,
            times.len() == i,
            forall|j: int| 0 <= j < times.len() ==> #[trigger] times[j] <= max_epoch_ms(),
            forall|t: Seq<u128>|
                t.len() == n && t.take(i as int) == times ==> #[trigger] spec_eval_from(
                    cv,
                    0,
                    st0,
                    t,
                    seq![],
                    seq![],
                ) == spec_eval_from(cv, i as int, store.state(), t, buf@, byte_views(dumps@)),
        decreases n - i,
    {
        if !check_cmd_fits(&cmds[i], store) {
            let result = Evaluation { reply: Ok(buf), aof_dumps: dumps, overflowed: true };
            proof {
                let t = times + Seq::new((n - i) as nat, |k: int| 0u128);
                assert(t.take(i as int) =~= times);
                assert forall|j: int| 0 <= j < t.len() implies #[trigger] t[j] <= max_epoch_ms() by {
                    if j < i {
                        assert(t[j] == times[j]);
                    }
                }
                assert(cv[i as int] == cmds@[i as int]@);
                let res = EvalAll {
                    reply: reply_model(result.reply),
                    state: store.state(),
                    dumps: byte_views(result.aof_dumps@),
                    overflowed: true,
                };
                assert(spec_eval_from(cv, i as int, store.state(), t, buf@, byte_views(dumps@)) == res);
                assert(spec_eval_from(cmd_views(cmds@), 0, st0, t, seq![], seq![]) == res);
            }
            return result;
        }
        let now = get_current_epoch_time();
        let ghost before = store.state();
        let ghost buf0 = buf@;
        let ghost dv0 = byte_views(dumps@);
        let ghost times0 = times;
        proof {
            times = times.push(now);
            assert(cv[i as int] == cmds@[i as int]@);
        }
        let (reply, dump) = eval_cmd(&cmds[i], store, now);
        let ghost dump_v = match &dump {
            Some(b) => Some(b@),
            None => None::<Seq<u8>>,
        };
        match dump {
            Some(b) => {
                dumps.push(b);
            },
            None => {},
        }
        let ghost dv1 = byte_views(dumps@);
        proof {
            assert(dv1 =~= match dump_v {
                Some(b) => dv0.push(b),
                None => dv0,
            });
        }
        match reply {
            Err(e) => {
                let result = Evaluation { reply: Err(e), aof_dumps: dumps, overflowed: false };
                proof {
                    let t = times + Seq::new((n - i - 1) as nat, |k: int| 0u128);
                    assert(t.take(i as int) =~= times0);
                    assert(t[i as int] == now);
                    assert(t.take(i + 1) =~= times);
                    assert forall|j: int| 0 <= j < t.len() implies #[trigger] t[j] <= max_epoch_ms() by {
                        if j <= i {
                            assert(t[j] == times[j]);
                        }
                    }
                    assert(spec_eval_from(cv, 0, st0, t, seq![], seq![]) == spec_eval_from(
                        cv,
                        i as int,
                        before,
                        t,
                        buf0,
                        dv0,
                    ));
                    let res = EvalAll {
                        reply: reply_model(result.reply),
                        state: store.state(),
                        dumps: byte_views(result.aof_dumps@),
                        overflowed: false,
                    };
                    assert(spec_eval_from(cv, i as int, before, t, buf0, dv0) == res);
                    assert(t.len() == cmds@.len());
                    assert(spec_eval_from(cmd_views(cmds@), 0, st0, t, seq![], seq![]) == res);
                }
                return result;
            },
            Ok(b) => {
                let mut bytes = b;
                buf.append(&mut bytes);
                proof {
                    assert forall|t: Seq<u128>|
                        t.len() == n && t.take(i + 1) == times implies #[trigger] spec_eval_from(
                        cv,
                        0,
                        st0,
                        t,
                        seq![],
                        seq![],
                    ) == spec_eval_from(cv, i + 1, store.state(), t, buf@, byte_views(dumps@)) by {
                        assert(t.take(i as int) =~= times0) by {
                            assert(t.take(i as int) =~= t.take(i + 1).take(i as int));
                        }
                        assert(t[i as int] == t.take(i + 1)[i as int]);
                    }
                }
            },
        }
        i = i + 1;
    }
    proof {
        assert(times.take(n as int) =~= times);
        let res = EvalAll {
            reply: reply_model(Ok::<Vec<u8>, EvalError>(buf)),
            state: store.state(),
            dumps: byte_views(dumps@),
            overflowed: false,
        };
        assert(spec_eval_from(cv, n as int, store.state(), times, buf@, byte_views(dumps@)) == res);
        assert(spec_eval_from(cmd_views(cmds@), 0, st0, times, seq![], seq![]) == res);
    }
    Evaluation { reply: Ok(buf), aof_dumps: dumps, overflowed: false }
}

} // verus!
