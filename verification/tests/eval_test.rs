use redis_lite::aof::{aof_dump, dump_key};
use redis_lite::cmd::{to_cmds, RedisCmd, RedisCmdType};
use redis_lite::eval::{
    check_cmd_fits, eval_and_respond, is_ex_option, eval_del, eval_expire, eval_get, eval_ping, eval_set,
    eval_ttl,
};
use redis_lite::resp::decode_array_string;
use redis_lite::store::{Obj, Store};

fn args(a: &[&str]) -> Vec<String> {
    a.iter().map(|s| s.to_string()).collect()
}

fn cmd(a: &[&str]) -> RedisCmd {
    RedisCmd { cmd: a[0].to_string(), args: args(&a[1..]) }
}

fn err(r: Result<Vec<u8>, redis_lite::eval::EvalError>) -> String {
    r.err().unwrap().message
}

#[test]
fn parse_ignores_case() {
    assert_eq!(RedisCmdType::parse("PiNg"), Some(RedisCmdType::Ping));
    assert_eq!(RedisCmdType::parse("set"), Some(RedisCmdType::SetKey));
    assert_eq!(RedisCmdType::parse("BGREWRITEAOF"), Some(RedisCmdType::BgRewriteAOF));
    assert_eq!(RedisCmdType::parse("PEXPIREAT"), Some(RedisCmdType::PExpireAt));
    assert_eq!(RedisCmdType::parse("nope"), None);
}

#[test]
fn ping_replies() {
    assert_eq!(eval_ping(&args(&[])).unwrap(), b"+PONG\r\n".to_vec());
    assert_eq!(eval_ping(&args(&["hi"])).unwrap(), b"$2\r\nhi\r\n".to_vec());
    assert_eq!(err(eval_ping(&args(&["a", "b"]))), "ERR wrong number of arguments for 'ping' command");
}

#[test]
fn set_then_get_reads_the_value() {
    let mut s = Store::new();
    assert_eq!(eval_set(&args(&["k", "v"]), &mut s, 1000).unwrap(), b"+OK\r\n".to_vec());
    assert_eq!(eval_get(&args(&["k"]), &mut s, 5000).unwrap(), b"$1\r\nv\r\n".to_vec());
    assert_eq!(eval_get(&args(&["missing"]), &mut s, 5000).unwrap(), b"$-1\r\n".to_vec());
}

#[test]
fn set_with_ex_expires() {
    let mut s = Store::new();
    eval_set(&args(&["k", "v", "EX", "10"]), &mut s, 1000).unwrap();
    assert_eq!(s.get(&"k".to_string()).unwrap().expires_at, Some(11000));
    assert_eq!(eval_ttl(&args(&["k"]), &s, 1000).unwrap(), b":10\r\n".to_vec());
    assert_eq!(eval_get(&args(&["k"]), &mut s, 10999).unwrap(), b"$1\r\nv\r\n".to_vec());
    assert_eq!(eval_get(&args(&["k"]), &mut s, 11000).unwrap(), b"$-1\r\n".to_vec());
    assert_eq!(s.size(), 0);
}

#[test]
fn set_option_errors() {
    let mut s = Store::new();
    assert_eq!(err(eval_set(&args(&["k"]), &mut s, 0)), "ERR wrong number of arguments for 'set' command");
    assert_eq!(err(eval_set(&args(&["k", "v", "PX", "1"]), &mut s, 0)), "ERR syntax error");
    assert_eq!(err(eval_set(&args(&["k", "v", "ex"]), &mut s, 0)), "ERR syntax error");
    assert_eq!(err(eval_set(&args(&["k", "v", "ex", "x"]), &mut s, 0)), "ERR value is not an integer or out of range");
    assert_eq!(err(eval_set(&args(&["k", "v", "ex", "0"]), &mut s, 0)), "ERR invalid expire time in 'set' command");
    assert_eq!(s.size(), 0);
}

#[test]
fn ttl_reports() {
    let mut s = Store::new();
    eval_set(&args(&["p", "v"]), &mut s, 0).unwrap();
    assert_eq!(eval_ttl(&args(&["p"]), &s, 0).unwrap(), b":-1\r\n".to_vec());
    assert_eq!(eval_ttl(&args(&["q"]), &s, 0).unwrap(), b":-2\r\n".to_vec());
    assert_eq!(err(eval_ttl(&args(&[]), &s, 0)), "ERR wrong number of arguments for 'ttl' command");
}

#[test]
fn del_counts_present_keys() {
    let mut s = Store::new();
    eval_set(&args(&["a", "1"]), &mut s, 0).unwrap();
    eval_set(&args(&["b", "2"]), &mut s, 0).unwrap();
    assert_eq!(eval_del(&args(&["a", "b", "c", "a"]), &mut s).unwrap(), b":2\r\n".to_vec());
    assert_eq!(s.size(), 0);
    assert_eq!(err(eval_del(&args(&[]), &mut s)), "ERR wrong number of arguments for 'del' command");
}

#[test]
fn expire_sets_the_expiry() {
    let mut s = Store::new();
    eval_set(&args(&["a", "1"]), &mut s, 0).unwrap();
    assert_eq!(eval_expire(&args(&["a", "5"]), &mut s, 100).unwrap(), b":1\r\n".to_vec());
    assert_eq!(eval_ttl(&args(&["a"]), &s, 100).unwrap(), b":5\r\n".to_vec());
    assert_eq!(eval_expire(&args(&["a", "-1"]), &mut s, 100).unwrap(), b":0\r\n".to_vec());
    assert_eq!(eval_expire(&args(&["zz", "5"]), &mut s, 100).unwrap(), b":0\r\n".to_vec());
    assert_eq!(eval_expire(&args(&["zz", "x"]), &mut s, 100).unwrap(), b":0\r\n".to_vec());
    assert_eq!(err(eval_expire(&args(&["a", "x"]), &mut s, 100)), "ERR value is not an integer or out of range");
    assert_eq!(err(eval_expire(&args(&["a"]), &mut s, 100)), "ERR wrong number of arguments for 'expire' command");
}

#[test]
fn batch_gathers_replies_and_stops_at_the_first_error() {
    let mut s = Store::new();
    let cmds = vec![cmd(&["SET", "k", "v"]), cmd(&["GET", "k"]), cmd(&["PING"])];
    let out = eval_and_respond(&cmds, &mut s);
    assert_eq!(out.reply.unwrap(), b"+OK\r\n$1\r\nv\r\n+PONG\r\n".to_vec());
    let cmds = vec![cmd(&["DEL", "k"]), cmd(&["FOO", "a", "b"]), cmd(&["SET", "x", "y"])];
    let out = eval_and_respond(&cmds, &mut s);
    assert_eq!(
        out.reply.err().unwrap().message,
        "ERR unknown command 'FOO', with args beginning with: 'a', 'b',"
    );
    assert_eq!(s.size(), 0);
}

#[test]
fn unknown_command_without_args() {
    let mut s = Store::new();
    let out = eval_and_respond(&vec![cmd(&["pexpireat"])], &mut s);
    assert_eq!(out.reply.err().unwrap().message, "ERR unknown command 'pexpireat', with args beginning with: ");
}

#[test]
fn bgrewriteaof_gives_the_file() {
    let mut s = Store::new();
    let cmds = vec![cmd(&["SET", "a", "1"]), cmd(&["SET", "b", "2"]), cmd(&["BGREWRITEAOF"])];
    let out = eval_and_respond(&cmds, &mut s);
    assert_eq!(out.reply.unwrap(), b"+OK\r\n+OK\r\n+OK\r\n".to_vec());
    assert_eq!(out.aof_dumps.len(), 1);
    let back = decode_array_string(&out.aof_dumps[0]).unwrap();
    assert_eq!(back, vec![args(&["SET", "a", "1"]), args(&["SET", "b", "2"])]);
    assert_eq!(aof_dump(&s), out.aof_dumps[0]);
    let err = eval_and_respond(&vec![cmd(&["BGREWRITEAOF", "x"])], &mut s);
    assert_eq!(err.reply.err().unwrap().message, "ERR wrong number of arguments for 'bgrewriteaof' command");
}

#[test]
fn dump_key_is_a_set_command() {
    let o = Obj { val: "v".to_string(), expires_at: None };
    assert_eq!(dump_key(&"k".to_string(), &o).unwrap(), b"*3\r\n$3\r\nSET\r\n$1\r\nk\r\n$1\r\nv\r\n".to_vec());
}

#[test]
fn fits_checks_the_arithmetic() {
    let mut s = Store::new();
    assert!(check_cmd_fits(&cmd(&["SET", "k", "v", "EX", "9223372036854775"]), &s));
    assert!(!check_cmd_fits(&cmd(&["SET", "k", "v", "EX", "9223372036854776"]), &s));
    assert!(check_cmd_fits(&cmd(&["EXPIRE", "k", "9223372036854776"]), &s));
    s.put("k".to_string(), Obj { val: "v".to_string(), expires_at: None });
    assert!(!check_cmd_fits(&cmd(&["EXPIRE", "k", "9223372036854776"]), &s));
    assert!(check_cmd_fits(&cmd(&["EXPIRE", "k", "5"]), &s));
    assert!(check_cmd_fits(&cmd(&["GET", "k"]), &s));
}

#[test]
fn expire_on_an_absent_key_never_reads_the_seconds() {
    let mut s = Store::new();
    assert_eq!(eval_expire(&args(&["missing", "99999999999999999"]), &mut s, 0).unwrap(), b":0\r\n".to_vec());
    assert_eq!(eval_expire(&args(&["missing", "abc"]), &mut s, 0).unwrap(), b":0\r\n".to_vec());
    let out = eval_and_respond(&vec![cmd(&["EXPIRE", "missing", "99999999999999999"])], &mut s);
    assert!(!out.overflowed);
    assert_eq!(out.reply.unwrap(), b":0\r\n".to_vec());
}

#[test]
fn a_batch_stops_before_an_overflowing_command() {
    let mut s = Store::new();
    let first_fails = vec![cmd(&["FOO"]), cmd(&["SET", "k", "v"]), cmd(&["EXPIRE", "k", "99999999999999999"])];
    let out = eval_and_respond(&first_fails, &mut s);
    assert!(!out.overflowed);
    assert_eq!(out.reply.err().unwrap().message, "ERR unknown command 'FOO', with args beginning with: ");
    assert_eq!(s.size(), 0);
    let overflows = vec![cmd(&["SET", "k", "v"]), cmd(&["EXPIRE", "k", "99999999999999999"]), cmd(&["GET", "k"])];
    let out = eval_and_respond(&overflows, &mut s);
    assert!(out.overflowed);
    assert_eq!(out.reply.unwrap(), b"+OK\r\n".to_vec());
    assert_eq!(s.get(&"k".to_string()).unwrap().expires_at, None);
}

#[test]
fn replaying_the_file_restores_the_values() {
    let mut s = Store::new();
    let cmds = vec![
        cmd(&["SET", "a", "1", "EX", "100"]),
        cmd(&["SET", "b", "2"]),
        cmd(&["SET", "a", "3"]),
    ];
    eval_and_respond(&cmds, &mut s).reply.unwrap();
    let file = aof_dump(&s);
    let replay: Vec<RedisCmd> = decode_array_string(&file)
        .unwrap()
        .into_iter()
        .map(|c| RedisCmd { cmd: c[0].clone(), args: c[1..].to_vec() })
        .collect();
    let mut fresh = Store::new();
    eval_and_respond(&replay, &mut fresh).reply.unwrap();
    assert_eq!(fresh.size(), 2);
    assert_eq!(fresh.get(&"a".to_string()).unwrap().val, "3");
    assert_eq!(fresh.get(&"a".to_string()).unwrap().expires_at, None);
    assert_eq!(fresh.get(&"b".to_string()).unwrap().val, "2");
    let keys: Vec<String> = fresh.iter().into_iter().map(|(k, _)| k.clone()).collect();
    assert_eq!(keys, vec!["a".to_string(), "b".to_string()]);
}

#[test]
fn names_and_options_are_matched_lowercased() {
    assert_eq!(RedisCmdType::from_lowercase("expire"), Some(RedisCmdType::Expire));
    assert_eq!(RedisCmdType::from_lowercase("EXPIRE"), None);
    assert!(is_ex_option("ex"));
    assert!(!is_ex_option("EX"));
    assert_eq!(RedisCmdType::parse("ExPiRe"), Some(RedisCmdType::Expire));
}

#[test]
fn arrays_become_commands() {
    let cmds = to_cmds(vec![args(&["SET", "k", "v"]), args(&["PING"])]);
    assert_eq!(cmds.len(), 2);
    assert_eq!(cmds[0].cmd, "SET");
    assert_eq!(cmds[0].args, args(&["k", "v"]));
    assert_eq!(cmds[1].cmd, "PING");
    assert!(cmds[1].args.is_empty());
}
