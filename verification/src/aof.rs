use vstd::prelude::*;

use crate::resp::{RespError, encode_cmd, spec_encode_cmd, string_views};
use crate::store::{Obj, ObjView, Store, StoreState};

verus! {

/// The command that recreates a key with its value.
pub open spec fn set_cmd(k: Seq<char>, v: Seq<char>) -> Seq<Seq<char>> {
    seq!["SET"@, k, v]
}

/// The rewritten append-only file for the keys of `order`: one `SET` command per
/// key, in order.
pub open spec fn spec_aof_dump_keys(m: Map<Seq<char>, ObjView>, order: Seq<Seq<char>>) -> Seq<u8>
    decreases order.len(),
{
    if order.len() == 0 {
        seq![]
    } else {
        spec_aof_dump_keys(m, order.drop_last()) + spec_encode_cmd(
            set_cmd(order.last(), m[order.last()].val),
        )
    }
}

/// The rewritten append-only file for a store.
pub open spec fn spec_aof_dump(st: StoreState) -> Seq<u8> {
    spec_aof_dump_keys(st.map, st.order)
}

/// The `SET` command that recreates a key with its value, encoded.
pub fn dump_key(key: &String, obj: &Obj) -> (r: Result<Vec<u8>, RespError>)
    ensures
        r matches Ok(b) && b@ == spec_encode_cmd(set_cmd(key@, obj.val@)),
{
    let cmd = vec![String::from_str("SET"), key.clone(), obj.val.clone()];
    proof {
        reveal_strlit("SET");
        assert(string_views(cmd@) =~= set_cmd(key@, obj.val@));
    }
    encode_cmd(cmd)
}

/// The rewritten append-only file for a store: one `SET` command per key, in the
/// store's order.
pub fn aof_dump(store: &Store) -> (r: Vec<u8>)
    requires
        store.wf(),
    ensures
        r@ == spec_aof_dump(store.state()),
{
    let ghost order = store.key_order();
    let ghost m = store@;
    let mut buf: Vec<u8> = Vec::new();
    let n = store.size();
    let mut i: usize = 0;
    assert(order.take(0) =~= Seq::<Seq<char>>::empty());
    while i < n
        invariant
            store.wf(),
            n == order.len(),
            order == store.key_order(),
            m == store@,
            i <= n,
            buf@ == spec_aof_dump_keys(m, order.take(i as int)),
        decreases n - i,
    {
        let e = store.entry_at(i);
        let b = dump_key(&e.0, &e.1);
        let mut bytes = match b {
            Ok(b) => b,
            Err(_) => Vec::new(),
        };
        proof {
            assert(order.take(i + 1).drop_last() =~= order.take(i as int));
        }
        buf.append(&mut bytes);
        i = i + 1;
    }
    assert(order.take(order.len() as int) =~= order);
    buf
}

} // verus!
