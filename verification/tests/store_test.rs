use redis_lite::cleanup::{cleanup_expired_keys, CleanupConfig};
use redis_lite::config::{config, Config};
use redis_lite::context::Context;
use redis_lite::store::{Obj, Store};

fn obj(v: &str, exp: Option<u128>) -> Obj {
    Obj { val: v.to_string(), expires_at: exp }
}

#[test]
fn put_then_get_gives_the_value() {
    let mut s = Store::new();
    s.put("a".to_string(), obj("1", None));
    s.put("b".to_string(), obj("2", Some(10)));
    assert_eq!(s.get(&"a".to_string()).unwrap().val, "1");
    assert_eq!(s.get(&"b".to_string()).unwrap().expires_at, Some(10));
    assert!(s.get(&"c".to_string()).is_none());
    s.put("a".to_string(), obj("3", None));
    assert_eq!(s.get(&"a".to_string()).unwrap().val, "3");
    assert_eq!(s.size(), 2);
}

#[test]
fn delete_reports_presence() {
    let mut s = Store::new();
    s.put("a".to_string(), obj("1", None));
    assert!(s.delete(&"a".to_string()));
    assert!(!s.delete(&"a".to_string()));
    assert!(s.get(&"a".to_string()).is_none());
    assert_eq!(s.size(), 0);
}

#[test]
fn evict_first_removes_the_oldest_key() {
    let mut s = Store::new();
    s.evict_first();
    assert_eq!(s.size(), 0);
    s.put("x".to_string(), obj("1", None));
    s.put("y".to_string(), obj("2", None));
    s.evict_first();
    assert!(s.get(&"x".to_string()).is_none());
    assert!(s.get(&"y".to_string()).is_some());
}

#[test]
fn store_stays_within_one_above_the_limit() {
    let limit = config().max_key_limit;
    let mut s = Store::new();
    for i in 0..(limit + 10) {
        s.put(format!("k{i}"), obj("v", None));
        assert!(s.size() <= limit + 1);
    }
    assert_eq!(s.size(), limit + 1);
    assert!(s.get(&"k0".to_string()).is_none());
    assert!(s.get(&format!("k{}", limit + 9)).is_some());
}

#[test]
fn get_mut_changes_in_place() {
    let mut s = Store::new();
    s.put("a".to_string(), obj("1", None));
    s.get_mut(&"a".to_string()).unwrap().expires_at = Some(99);
    assert_eq!(s.get(&"a".to_string()).unwrap().expires_at, Some(99));
    assert!(s.get_mut(&"z".to_string()).is_none());
}

#[test]
fn iter_walks_the_entries_in_order() {
    let mut s = Store::new();
    s.put("a".to_string(), obj("1", None));
    s.put("b".to_string(), obj("2", None));
    let keys: Vec<&String> = s.iter().map(|e| &e.0).collect();
    assert_eq!(keys, vec!["a", "b"]);
}

#[test]
fn cleanup_among_picked_positions() {
    let mut s = Store::new();
    s.put("a".to_string(), obj("1", Some(5)));
    s.put("b".to_string(), obj("2", None));
    s.put("c".to_string(), obj("3", Some(50)));
    s.put("d".to_string(), obj("4", Some(1)));
    let n = s.cleanup_expired_among(&vec![0, 1, 2], 10);
    assert_eq!(n, 1);
    assert!(s.get(&"a".to_string()).is_none());
    assert!(s.get(&"d".to_string()).is_some());
    assert_eq!(s.size(), 3);
}

#[test]
fn cleanup_samples_removes_only_expired() {
    let mut s = Store::new();
    s.put("old".to_string(), obj("1", Some(1)));
    s.put("keep".to_string(), obj("2", None));
    let n = s.cleanup_expired_samples(10);
    assert_eq!(n, 1);
    assert!(s.get(&"keep".to_string()).is_some());
}

#[test]
fn cleanup_keys_sweeps_until_few_expired() {
    let mut s = Store::new();
    for i in 0..50 {
        s.put(format!("e{i}"), obj("x", Some(1)));
    }
    s.put("live".to_string(), obj("y", None));
    cleanup_expired_keys(&mut s, 20);
    assert!(s.size() < 6);
    assert!(s.get(&"live".to_string()).is_some());
}

#[test]
fn obj_new_sets_expiry_after_now() {
    let o = Obj::new("v".to_string(), Some(1000));
    assert!(o.expires_at.unwrap() >= 1000);
    assert!(Obj::new("v".to_string(), None).expires_at.is_none());
    let p = Obj::new_at("w".to_string(), Some(5), 10);
    assert_eq!(p.expires_at, Some(15));
}

#[test]
fn defaults() {
    let c = Config::new();
    assert_eq!(c.port, 7379);
    assert_eq!(c.max_key_limit, 100);
    assert_eq!(c.aof_file_name, "default.aof");
    let cc = CleanupConfig::new();
    assert_eq!(cc.last_run_time, 0);
    assert_eq!(cc.freuqency_sec, 1);
    assert_eq!(cc.sample_size, 20);
    assert!(cc.is_due(cc.last_run_time + 1000));
    assert!(!cc.is_due(cc.last_run_time + 999));
}

#[test]
fn context_reaches_the_store() {
    let mut s = Store::new();
    let ctx = Context::new(&mut s);
    ctx.store.put("k".to_string(), obj("v", None));
    assert_eq!(s.size(), 1);
}

#[test]
fn a_sweep_removes_only_keys_expired_by_the_clock() {
    let mut s = Store::new();
    s.put("A".to_string(), obj("1", Some(100)));
    s.put("B".to_string(), obj("2", Some(50)));
    s.put("C".to_string(), obj("3", None));
    s.put("D".to_string(), obj("4", Some(u128::MAX)));
    cleanup_expired_keys(&mut s, 20);
    let keys: Vec<String> = s.iter().map(|(k, _)| k.clone()).collect();
    assert_eq!(keys, vec!["C".to_string(), "D".to_string()]);
}
