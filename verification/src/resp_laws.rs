use vstd::prelude::*;
use vstd::utf8::*;

use crate::resp::{
    RespErrorModel, RespModel, crlf_at, crlf_from, lemma_crlf_from, spec_arrays_from,
    spec_bulks, spec_decode, spec_decode_all, spec_decode_array_string, spec_decode_one,
    spec_encode_cmd, spec_encode_one, spec_find_crlf, spec_read_array, spec_read_elems,
    spec_read_length, spec_strings_from, spec_encode_all, spec_encode, aborts,
};
use crate::text::{ascii_chars, crlf, dec_digits, int_text, lemma_dec_digits};

verus! {

// ---------------------------------------------------------------------------
// Every successful read consumes part of its input
// ---------------------------------------------------------------------------

proof fn lemma_find_crlf_in_range(d: Seq<u8>)
    ensures
        spec_find_crlf(d) matches Some(p) ==> 0 <= p && p + 2 <= d.len(),
{
    lemma_crlf_from(d, 0);
}

/// A value that reads successfully consumes at least two bytes and at most all of
/// them.
pub proof fn lemma_decode_one_consumes(d: Seq<u8>)
    ensures
        spec_decode_one(d) matches Ok((v, k)) ==> 2 <= k <= d.len(),
    decreases d.len(), 2int,
{
    lemma_find_crlf_in_range(d);
    if d.len() > 0 && d[0] == 42 {
        lemma_read_array_consumes(d);
    }
}

proof fn lemma_read_array_consumes(d: Seq<u8>)
    ensures
        spec_read_array(d) matches Ok((v, k)) ==> 2 <= k <= d.len(),
    decreases d.len(), 1int,
{
    lemma_find_crlf_in_range(d);
    if let Ok((p, n)) = spec_read_length(d) {
        if 0 <= p && p + 2 <= d.len() {
            lemma_read_elems_consumes(d, p + 2, n as nat);
        }
    }
}

/// Reading `count` values from `pos` ends between `pos` and the end, with `count`
/// values.
pub proof fn lemma_read_elems_consumes(d: Seq<u8>, pos: int, count: nat)
    requires
        0 <= pos <= d.len(),
    ensures
        spec_read_elems(d, pos, count) matches Ok((vs, end)) ==> pos <= end <= d.len()
            && vs.len() == count,
    decreases d.len() - pos, count + 3,
{
    if count > 0 {
        let sub = d.subrange(pos, d.len() as int);
        lemma_decode_one_consumes(sub);
        if let Ok((v, k)) = spec_decode_one(sub) {
            if 0 < k && pos + k <= d.len() {
                lemma_read_elems_consumes(d, pos + k, (count - 1) as nat);
            }
        }
    }
}

/// Reading a list never stops on a value that consumed nothing or more than all:
/// it aborts only where a single value's read aborts.
pub proof fn lemma_decode_all_aborts_only_inside(d: Seq<u8>)
    ensures
        spec_decode_all(d) matches Err(RespErrorModel::Abort) ==> exists|i: int|
            0 <= i < d.len() && #[trigger] spec_decode_one(d.subrange(i, d.len() as int)) matches Err(
                RespErrorModel::Abort,
            ),
    decreases d.len(),
{
    if d.len() > 0 {
        lemma_decode_one_consumes(d);
        assert(d.subrange(0, d.len() as int) =~= d);
        if let Ok((v, k)) = spec_decode_one(d) {
            let rest = d.subrange(k, d.len() as int);
            lemma_decode_all_aborts_only_inside(rest);
            if spec_decode_all(rest) matches Err(RespErrorModel::Abort) {
                let i = choose|i: int|
                    0 <= i < rest.len() && #[trigger] spec_decode_one(
                        rest.subrange(i, rest.len() as int),
                    ) matches Err(RespErrorModel::Abort);
                assert(rest.subrange(i, rest.len() as int) =~= d.subrange(k + i, d.len() as int));
            }
        }
    }
}

// ---------------------------------------------------------------------------
// Reading back what was written
// ---------------------------------------------------------------------------

proof fn lemma_crlf_first_from(d: Seq<u8>, i: int, p: int)
    requires
        0 <= i <= p,
        crlf_at(d, p),
        forall|j: int| i <= j < p ==> !#[trigger] crlf_at(d, j),
    ensures
        crlf_from(d, i) == Some(p),
    decreases p - i,
{
    if i < p {
        assert(!crlf_at(d, i));
        lemma_crlf_first_from(d, i + 1, p);
    }
}

/// Bytes that start with a type byte, a number, `\r\n`.
pub open spec fn header(tag: u8, n: nat) -> Seq<u8> {
    seq![tag] + dec_digits(n) + crlf()
}

/// The length field of a header reads back as the number, and `\r\n` is found
/// right after the digits.
proof fn lemma_read_header(tag: u8, n: nat, rest: Seq<u8>)
    requires
        tag != 13,
        n <= usize::MAX,
    ensures
        spec_find_crlf(header(tag, n) + rest) == Some(1 + dec_digits(n).len() as int),
        spec_read_length(header(tag, n) + rest) == Ok::<(int, usize), RespErrorModel>(
            (1 + dec_digits(n).len() as int, n as usize),
        ),
{
    let ds = dec_digits(n);
    let d = header(tag, n) + rest;
    let p: int = 1 + ds.len() as int;
    lemma_dec_digits(n);
    assert(d[p] == 13 && d[p + 1] == 10);
    assert forall|j: int| 0 <= j < p implies !#[trigger] crlf_at(d, j) by {
        if j > 0 {
            assert(d[j] == ds[j - 1]);
        }
    }
    lemma_crlf_first_from(d, 0, p);
    assert(d.subrange(1, p) =~= ds);
    let cs = ascii_chars(ds);
    assert(cs[0] != '+') by {
        assert(48 <= ds[0] <= 57);
    }
    assert(cs.len() > 0);
}

/// A bulk string reads back as itself, whatever follows it.
pub proof fn lemma_bulk_roundtrip(s: Seq<char>, rest: Seq<u8>)
    requires
        spec_encode_one(RespModel::BulkString(s)).len() <= usize::MAX,
    ensures
        spec_decode_one(spec_encode_one(RespModel::BulkString(s)) + rest) == Ok::<
            (RespModel, int),
            RespErrorModel,
        >((RespModel::BulkString(s), spec_encode_one(RespModel::BulkString(s)).len() as int)),
{
    let u = encode_utf8(s);
    let n: nat = u.len();
    let e = spec_encode_one(RespModel::BulkString(s));
    let tail = u + crlf() + rest;
    let d = e + rest;
    assert(d =~= header(36, n) + tail);
    lemma_read_header(36, n, tail);
    let p: int = 1 + dec_digits(n).len() as int;
    let start = p + 2;
    let end = start + n;
    assert(end + 2 == e.len());
    assert(d.subrange(start, end) =~= u);
    assert(d[end] == 13 && d[end + 1] == 10);
    encode_utf8_valid_utf8(s);
    encode_utf8_decode_utf8(s);
}

/// An integer reads back as itself, whatever follows it.
pub proof fn lemma_integer_roundtrip(n: i64, rest: Seq<u8>)
    ensures
        spec_decode_one(spec_encode_one(RespModel::Integer(n)) + rest) == Ok::<
            (RespModel, int),
            RespErrorModel,
        >((RespModel::Integer(n), spec_encode_one(RespModel::Integer(n)).len() as int)),
{
    let t = int_text(n);
    let e = spec_encode_one(RespModel::Integer(n));
    let d = e + rest;
    let m: nat = if n < 0 {
        (-n) as nat
    } else {
        n as nat
    };
    let ds = dec_digits(m);
    lemma_dec_digits(m);
    let p: int = 1 + t.len() as int;
    assert(d[p] == 13 && d[p + 1] == 10);
    assert forall|j: int| 0 <= j < p implies !#[trigger] crlf_at(d, j) by {
        if j > 0 {
            assert(d[j] == t[j - 1]);
            if n < 0 && j > 1 {
                assert(t[j - 1] == ds[j - 2]);
            }
        }
    }
    lemma_crlf_first_from(d, 0, p);
    assert(d.subrange(1, p) =~= t);
    if n < 0 {
        assert(t =~= seq![45u8] + ds);
        lemma_ascii_prefix_minus(ds);
        let cs = decode_utf8(t);
        assert(cs.skip(1) =~= ascii_chars(ds));
        assert(cs[0] == '-');
    } else {
        let cs = decode_utf8(t);
        assert(cs[0] != '+' && cs[0] != '-') by {
            assert(48 <= ds[0] <= 57);
        }
    }
}

/// A minus sign before ASCII digits is ASCII, so the text decodes byte for byte.
proof fn lemma_ascii_prefix_minus(ds: Seq<u8>)
    requires
        forall|i: int| 0 <= i < ds.len() ==> 48 <= #[trigger] ds[i] <= 57,
    ensures
        valid_utf8(seq![45u8] + ds),
        decode_utf8(seq![45u8] + ds) == ascii_chars(seq![45u8] + ds),
{
    let t = seq![45u8] + ds;
    assert forall|i: int| 0 <= i < t.len() implies #[trigger] t[i] < 128 by {
        if i > 0 {
            assert(t[i] == ds[i - 1]);
        }
    }
    crate::text::lemma_ascii_utf8(t);
}

/// Whether `\r\n` occurs in some bytes.
pub open spec fn has_crlf(b: Seq<u8>) -> bool {
    exists|j: int| #[trigger] crlf_at(b, j)
}

proof fn lemma_line_roundtrip(tag: u8, s: Seq<char>, rest: Seq<u8>)
    requires
        tag != 13,
        !has_crlf(encode_utf8(s)),
    ensures
        ({
            let d = seq![tag] + encode_utf8(s) + crlf() + rest;
            &&& spec_find_crlf(d) == Some(1 + encode_utf8(s).len() as int)
            &&& d.subrange(1, 1 + encode_utf8(s).len() as int) == encode_utf8(s)
        }),
{
    let u = encode_utf8(s);
    let d = seq![tag] + u + crlf() + rest;
    let p: int = 1 + u.len() as int;
    assert(d[p] == 13 && d[p + 1] == 10);
    assert forall|j: int| 0 <= j < p implies !#[trigger] crlf_at(d, j) by {
        if j > 0 && crlf_at(d, j) {
            if j + 1 < p {
                assert(d[j] == u[j - 1] && d[j + 1] == u[j]);
                assert(crlf_at(u, j - 1));
            } else {
                assert(d[j + 1] == 13);
            }
        }
    }
    lemma_crlf_first_from(d, 0, p);
    assert(d.subrange(1, p) =~= u);
}

/// A simple string whose UTF-8 bytes hold no `\r\n` reads back as itself, whatever
/// follows it.
pub proof fn lemma_simple_string_roundtrip(s: Seq<char>, rest: Seq<u8>)
    requires
        !has_crlf(encode_utf8(s)),
    ensures
        spec_decode_one(spec_encode_one(RespModel::SimpleString(s)) + rest) == Ok::<
            (RespModel, int),
            RespErrorModel,
        >((RespModel::SimpleString(s), spec_encode_one(RespModel::SimpleString(s)).len() as int)),
{
    lemma_line_roundtrip(43, s, rest);
    encode_utf8_valid_utf8(s);
    encode_utf8_decode_utf8(s);
    assert(spec_encode_one(RespModel::SimpleString(s)) + rest =~= seq![43u8] + encode_utf8(s)
        + crlf() + rest);
}

/// An error whose UTF-8 bytes hold no `\r\n` reads back as itself, whatever follows
/// it.
pub proof fn lemma_error_roundtrip(s: Seq<char>, rest: Seq<u8>)
    requires
        !has_crlf(encode_utf8(s)),
    ensures
        spec_decode_one(spec_encode_one(RespModel::Error(s)) + rest) == Ok::<
            (RespModel, int),
            RespErrorModel,
        >((RespModel::Error(s), spec_encode_one(RespModel::Error(s)).len() as int)),
{
    lemma_line_roundtrip(45, s, rest);
    encode_utf8_valid_utf8(s);
    encode_utf8_decode_utf8(s);
    assert(spec_encode_one(RespModel::Error(s)) + rest =~= seq![45u8] + encode_utf8(s) + crlf()
        + rest);
}


// ---------------------------------------------------------------------------
// Commands read back
// ---------------------------------------------------------------------------

/// The models of a command's parts as bulk strings.
pub open spec fn bulk_models(c: Seq<Seq<char>>) -> Seq<RespModel> {
    Seq::new(c.len(), |i: int| RespModel::BulkString(c[i]))
}

proof fn lemma_bulks_front(c: Seq<Seq<char>>)
    requires
        c.len() > 0,
    ensures
        spec_bulks(c) == spec_encode_one(RespModel::BulkString(c[0])) + spec_bulks(c.drop_first()),
    decreases c.len(),
{
    if c.len() == 1 {
        assert(c.drop_last() =~= Seq::<Seq<char>>::empty());
        assert(c.drop_first() =~= Seq::<Seq<char>>::empty());
        assert(spec_bulks(c) =~= spec_encode_one(RespModel::BulkString(c[0])) + spec_bulks(
            c.drop_first(),
        ));
    } else {
        lemma_bulks_front(c.drop_last());
        assert(c.drop_last().drop_first() =~= c.drop_first().drop_last());
        assert(c.drop_first().last() == c.last());
        assert(c.drop_last()[0] == c[0]);
        assert(spec_bulks(c) =~= spec_encode_one(RespModel::BulkString(c[0])) + spec_bulks(
            c.drop_first(),
        ));
    }
}

proof fn lemma_bulks_len(c: Seq<Seq<char>>)
    ensures
        spec_bulks(c).len() >= c.len(),
    decreases c.len(),
{
    if c.len() > 0 {
        lemma_bulks_len(c.drop_last());
    }
}

proof fn lemma_read_bulks(d: Seq<u8>, pos: int, c: Seq<Seq<char>>)
    requires
        0 <= pos,
        pos + spec_bulks(c).len() <= d.len(),
        d.subrange(pos, pos + spec_bulks(c).len()) == spec_bulks(c),
        spec_bulks(c).len() <= usize::MAX,
    ensures
        spec_read_elems(d, pos, c.len()) == Ok::<(Seq<RespModel>, int), RespErrorModel>(
            (bulk_models(c), pos + spec_bulks(c).len()),
        ),
    decreases c.len(),
{
    if c.len() == 0 {
        assert(bulk_models(c) =~= Seq::<RespModel>::empty());
    } else {
        lemma_bulks_front(c);
        let b0 = spec_encode_one(RespModel::BulkString(c[0]));
        let c1 = c.drop_first();
        let sub = d.subrange(pos, d.len() as int);
        let rest0 = sub.subrange(b0.len() as int, sub.len() as int);
        assert(sub =~= b0 + rest0) by {
            assert forall|i: int| 0 <= i < b0.len() implies sub[i] == b0[i] by {
                assert(sub[i] == d.subrange(pos, pos + spec_bulks(c).len())[i]);
            }
        }
        lemma_bulk_roundtrip(c[0], rest0);
        let k = b0.len() as int;
        assert(k > 0);
        assert(d.subrange(pos + k, pos + k + spec_bulks(c1).len()) =~= spec_bulks(c1)) by {
            assert forall|i: int| 0 <= i < spec_bulks(c1).len() implies d.subrange(
                pos + k,
                pos + k + spec_bulks(c1).len(),
            )[i] == spec_bulks(c1)[i] by {
                assert(d.subrange(pos, pos + spec_bulks(c).len())[k + i] == spec_bulks(c)[k + i]);
            }
        }
        lemma_read_bulks(d, pos + k, c1);
        assert(seq![RespModel::BulkString(c[0])] + bulk_models(c1) =~= bulk_models(c));
    }
}

pub proof fn lemma_strings_of_bulks(c: Seq<Seq<char>>, i: int)
    requires
        0 <= i <= c.len(),
    ensures
        spec_strings_from(bulk_models(c), i) == Ok::<Seq<Seq<char>>, RespErrorModel>(
            c.subrange(i, c.len() as int),
        ),
    decreases c.len() - i,
{
    if i < c.len() {
        lemma_strings_of_bulks(c, i + 1);
        assert(seq![c[i]] + c.subrange(i + 1, c.len() as int) =~= c.subrange(i, c.len() as int));
    } else {
        assert(c.subrange(i, c.len() as int) =~= Seq::<Seq<char>>::empty());
    }
}

/// A command reads back as an array of bulk strings, whatever follows it.
pub proof fn lemma_cmd_roundtrip(c: Seq<Seq<char>>, rest: Seq<u8>)
    requires
        spec_encode_cmd(c).len() <= usize::MAX,
    ensures
        spec_decode_one(spec_encode_cmd(c) + rest) == Ok::<(RespModel, int), RespErrorModel>(
            (RespModel::Array(bulk_models(c)), spec_encode_cmd(c).len() as int),
        ),
{
    let e = spec_encode_cmd(c);
    let b = spec_bulks(c);
    let d = e + rest;
    lemma_bulks_len(c);
    assert(d =~= header(42, c.len()) + (b + rest));
    lemma_read_header(42, c.len(), b + rest);
    let p: int = 1 + dec_digits(c.len()).len() as int;
    assert(d.subrange(p + 2, p + 2 + b.len()) =~= b);
    lemma_read_bulks(d, p + 2, c);
    assert(p + 2 + b.len() == e.len());
}

/// Each part of a command is a string of the array it reads back as.
pub proof fn lemma_strings_of_cmd(c: Seq<Seq<char>>)
    ensures
        spec_strings_from(bulk_models(c), 0) == Ok::<Seq<Seq<char>>, RespErrorModel>(c),
{
    lemma_strings_of_bulks(c, 0);
    assert(c.subrange(0, c.len() as int) =~= c);
}

/// A command written with `encode_cmd` reads back, through `decode_array_string`,
/// as a list holding that command alone.
pub proof fn law_encode_cmd_reads_back(c: Seq<Seq<char>>)
    requires
        spec_encode_cmd(c).len() <= usize::MAX,
    ensures
        !aborts(spec_decode(spec_encode_cmd(c))),
        spec_decode_array_string(spec_encode_cmd(c)) == Ok::<Seq<Seq<Seq<char>>>, RespErrorModel>(
            seq![c],
        ),
{
    let e = spec_encode_cmd(c);
    let b = spec_bulks(c);
    lemma_bulks_len(c);
    assert(e =~= header(42, c.len()) + b);
    lemma_read_header(42, c.len(), b);
    let p: int = 1 + dec_digits(c.len()).len() as int;
    assert(e.subrange(p + 2, p + 2 + b.len()) =~= b);
    lemma_read_bulks(e, p + 2, c);
    assert(p + 2 + b.len() == e.len());
    assert(spec_read_array(e) == Ok::<(RespModel, int), RespErrorModel>(
        (RespModel::Array(bulk_models(c)), e.len() as int),
    ));
    assert(spec_decode_one(e) == Ok::<(RespModel, int), RespErrorModel>(
        (RespModel::Array(bulk_models(c)), e.len() as int),
    ));
    assert(e.subrange(e.len() as int, e.len() as int) =~= Seq::<u8>::empty());
    assert(spec_decode_all(e.subrange(e.len() as int, e.len() as int)) == Ok::<
        Seq<RespModel>,
        RespErrorModel,
    >(Seq::<RespModel>::empty()));
    assert(e.len() > 0);
    let vals = seq![RespModel::Array(bulk_models(c))];
    assert(seq![RespModel::Array(bulk_models(c))] + Seq::<RespModel>::empty() =~= vals);
    assert(spec_decode(e) == Ok::<Seq<RespModel>, RespErrorModel>(vals));
    lemma_strings_of_bulks(c, 0);
    assert(c.subrange(0, c.len() as int) =~= c);
    assert(spec_strings_from(bulk_models(c), 0) == Ok::<Seq<Seq<char>>, RespErrorModel>(c));
    assert(vals[0] == RespModel::Array(bulk_models(c)));
    assert(spec_arrays_from(vals, 1) == Ok::<Seq<Seq<Seq<char>>>, RespErrorModel>(seq![]));
    assert(seq![c] + Seq::<Seq<Seq<char>>>::empty() =~= seq![c]);
    assert(spec_arrays_from(vals, 0) == Ok::<Seq<Seq<Seq<char>>>, RespErrorModel>(seq![c]));
}

// ---------------------------------------------------------------------------
// Values read back
// ---------------------------------------------------------------------------

/// A value that its encoding reads back as: not an array, a simple string or an
/// error with no `\r\n` in its bytes, and an encoding whose length fits a `usize`.
pub open spec fn reads_back(v: RespModel) -> bool {
    &&& spec_encode_one(v).len() <= usize::MAX
    &&& match v {
        RespModel::SimpleString(s) => !has_crlf(encode_utf8(s)),
        RespModel::Error(s) => !has_crlf(encode_utf8(s)),
        RespModel::BulkString(_) => true,
        RespModel::Integer(_) => true,
        RespModel::Array(_) => false,
    }
}

proof fn lemma_one_roundtrip(v: RespModel, rest: Seq<u8>)
    requires
        reads_back(v),
    ensures
        spec_decode_one(spec_encode_one(v) + rest) == Ok::<(RespModel, int), RespErrorModel>(
            (v, spec_encode_one(v).len() as int),
        ),
{
    match v {
        RespModel::SimpleString(s) => lemma_simple_string_roundtrip(s, rest),
        RespModel::Error(s) => lemma_error_roundtrip(s, rest),
        RespModel::BulkString(s) => lemma_bulk_roundtrip(s, rest),
        RespModel::Integer(n) => lemma_integer_roundtrip(n, rest),
        RespModel::Array(_) => {},
    }
}

proof fn lemma_encode_all_front(items: Seq<RespModel>)
    requires
        items.len() > 0,
    ensures
        spec_encode_all(items) == spec_encode_one(items[0]) + spec_encode_all(items.drop_first()),
    decreases items.len(),
{
    if items.len() == 1 {
        assert(items.drop_last() =~= Seq::<RespModel>::empty());
        assert(items.drop_first() =~= Seq::<RespModel>::empty());
        assert(spec_encode_all(items) =~= spec_encode_one(items[0]) + spec_encode_all(
            items.drop_first(),
        ));
    } else {
        lemma_encode_all_front(items.drop_last());
        assert(items.drop_last().drop_first() =~= items.drop_first().drop_last());
        assert(items.drop_first().last() == items.last());
        assert(items.drop_last()[0] == items[0]);
        assert(spec_encode_all(items) =~= spec_encode_one(items[0]) + spec_encode_all(
            items.drop_first(),
        ));
    }
}

proof fn lemma_decode_all_of_encoded(items: Seq<RespModel>)
    requires
        forall|i: int| 0 <= i < items.len() ==> reads_back(#[trigger] items[i]),
        spec_encode_all(items).len() <= usize::MAX,
    ensures
        spec_decode_all(spec_encode_all(items)) == Ok::<Seq<RespModel>, RespErrorModel>(items),
    decreases items.len(),
{
    if items.len() == 0 {
        assert(spec_encode_all(items) =~= Seq::<u8>::empty());
        assert(items =~= Seq::<RespModel>::empty());
    } else {
        lemma_encode_all_front(items);
        let e0 = spec_encode_one(items[0]);
        let rest = spec_encode_all(items.drop_first());
        assert(reads_back(items[0]));
        lemma_one_roundtrip(items[0], rest);
        let d = spec_encode_all(items);
        assert(d.subrange(e0.len() as int, d.len() as int) =~= rest);
        assert forall|i: int| 0 <= i < items.drop_first().len() implies reads_back(
            #[trigger] items.drop_first()[i],
        ) by {
            assert(items.drop_first()[i] == items[i + 1]);
        }
        lemma_decode_all_of_encoded(items.drop_first());
        assert(seq![items[0]] + items.drop_first() =~= items);
    }
}

/// A value that is not an array reads back from its bytes as itself (for a simple
/// string or an error, when its bytes hold no `\r\n`).
pub proof fn law_value_reads_back(v: RespModel)
    requires
        reads_back(v),
    ensures
        !aborts(spec_decode(spec_encode(v))),
        spec_decode(spec_encode(v)) == Ok::<Seq<RespModel>, RespErrorModel>(seq![v]),
{
    assert(seq![v].drop_last() =~= Seq::<RespModel>::empty());
    assert(spec_encode_all(seq![v].drop_last()) =~= Seq::<u8>::empty());
    assert(spec_encode_all(seq![v]) =~= spec_encode_one(v));
    assert(spec_encode(v) == spec_encode_one(v));
    lemma_decode_all_of_encoded(seq![v]);
    lemma_one_roundtrip(v, Seq::<u8>::empty());
    assert(spec_encode_one(v) + Seq::<u8>::empty() =~= spec_encode_one(v));
}

/// An array of values that each read back is written as its items one after another,
/// and those bytes read back as the items.
pub proof fn law_array_reads_back(items: Seq<RespModel>)
    requires
        items.len() > 0,
        forall|i: int| 0 <= i < items.len() ==> reads_back(#[trigger] items[i]),
        spec_encode(RespModel::Array(items)).len() <= usize::MAX,
    ensures
        !aborts(spec_decode(spec_encode(RespModel::Array(items)))),
        spec_decode(spec_encode(RespModel::Array(items))) == Ok::<Seq<RespModel>, RespErrorModel>(
            items,
        ),
{
    lemma_decode_all_of_encoded(items);
    lemma_encode_all_front(items);
    assert(reads_back(items[0]));
}


// ---------------------------------------------------------------------------
// A value depends only on its own bytes
// ---------------------------------------------------------------------------

/// Two byte strings agree on their first `k` bytes, and both have that many.
pub open spec fn agree_before(d: Seq<u8>, e: Seq<u8>, k: int) -> bool {
    &&& 0 <= k <= d.len()
    &&& k <= e.len()
    &&& forall|j: int| 0 <= j < k ==> #[trigger] e[j] == d[j]
}

proof fn lemma_agree_subrange(d: Seq<u8>, e: Seq<u8>, k: int, a: int, b: int)
    requires
        agree_before(d, e, k),
        0 <= a <= b <= k,
    ensures
        d.subrange(a, b) == e.subrange(a, b),
{
    assert(d.subrange(a, b) =~= e.subrange(a, b));
}

proof fn lemma_find_crlf_agree(d: Seq<u8>, e: Seq<u8>, k: int, p: int)
    requires
        agree_before(d, e, k),
        spec_find_crlf(d) == Some(p),
        p + 2 <= k,
    ensures
        spec_find_crlf(e) == Some(p),
{
    lemma_crlf_from(d, 0);
    assert(e[p] == d[p] && e[p + 1] == d[p + 1]);
    assert forall|j: int| 0 <= j < p implies !#[trigger] crlf_at(e, j) by {
        assert(e[j] == d[j] && e[j + 1] == d[j + 1]);
        assert(!crlf_at(d, j));
    }
    lemma_crlf_first_from(e, 0, p);
}

proof fn lemma_read_length_agree(d: Seq<u8>, e: Seq<u8>, k: int)
    requires
        spec_read_length(d) matches Ok((p, n)) && p + 2 <= k,
        agree_before(d, e, k),
    ensures
        spec_read_length(e) == spec_read_length(d),
{
    let p = spec_find_crlf(d)->Some_0;
    lemma_find_crlf_agree(d, e, k, p);
    lemma_agree_subrange(d, e, k, 1, p);
}

/// A value reads the same from any bytes that agree with its own up to where it
/// ends.
pub proof fn lemma_decode_one_agree(d: Seq<u8>, e: Seq<u8>)
    requires
        spec_decode_one(d) matches Ok((v, k)) && agree_before(d, e, k),
    ensures
        spec_decode_one(e) == spec_decode_one(d),
    decreases d.len(), 2int,
{
    let k = spec_decode_one(d)->Ok_0.1;
    lemma_decode_one_consumes(d);
    assert(e[0] == d[0]);
    if d[0] == 43 || d[0] == 45 || d[0] == 58 {
        let p = spec_find_crlf(d)->Some_0;
        lemma_find_crlf_agree(d, e, k, p);
        lemma_agree_subrange(d, e, k, 1, p);
    } else if d[0] == 36 {
        let (p, n) = spec_read_length(d)->Ok_0;
        lemma_read_length_agree(d, e, k);
        let end = p + 2 + n;
        assert(e[end] == d[end] && e[end + 1] == d[end + 1]);
        lemma_agree_subrange(d, e, k, p + 2, end);
    } else if d[0] == 42 {
        lemma_read_array_agree(d, e);
    }
}

proof fn lemma_read_array_agree(d: Seq<u8>, e: Seq<u8>)
    requires
        spec_read_array(d) matches Ok((v, k)) && agree_before(d, e, k),
    ensures
        spec_read_array(e) == spec_read_array(d),
    decreases d.len(), 1int,
{
    let k = spec_read_array(d)->Ok_0.1;
    let (p, n) = spec_read_length(d)->Ok_0;
    lemma_read_elems_consumes(d, p + 2, n as nat);
    lemma_read_length_agree(d, e, k);
    lemma_read_elems_agree(d, e, p + 2, n as nat);
}

proof fn lemma_read_elems_agree(d: Seq<u8>, e: Seq<u8>, pos: int, count: nat)
    requires
        0 <= pos <= d.len(),
        spec_read_elems(d, pos, count) matches Ok((vs, end)) && agree_before(d, e, end),
    ensures
        spec_read_elems(e, pos, count) == spec_read_elems(d, pos, count),
    decreases d.len() - pos, count + 3,
{
    let end = spec_read_elems(d, pos, count)->Ok_0.1;
    lemma_read_elems_consumes(d, pos, count);
    if count > 0 {
        let d1 = d.subrange(pos, d.len() as int);
        let e1 = e.subrange(pos, e.len() as int);
        let k1 = spec_decode_one(d1)->Ok_0.1;
        lemma_read_elems_consumes(d, pos + k1, (count - 1) as nat);
        assert(agree_before(d1, e1, k1)) by {
            assert forall|j: int| 0 <= j < k1 implies #[trigger] e1[j] == d1[j] by {
                assert(e[pos + j] == d[pos + j]);
            }
        }
        lemma_decode_one_agree(d1, e1);
        lemma_read_elems_agree(d, e, pos + k1, (count - 1) as nat);
    }
}

/// A value read from some bytes, and how many bytes it took, stay the same when the
/// bytes after it are replaced by any others.
pub proof fn law_decode_one_ignores_what_follows(data: Seq<u8>, x: Seq<u8>)
    requires
        spec_decode_one(data) is Ok,
    ensures
        ({
            let k = spec_decode_one(data)->Ok_0.1;
            &&& 0 < k <= data.len()
            &&& spec_decode_one(data.subrange(0, k) + x) == spec_decode_one(data)
        }),
{
    let k = spec_decode_one(data)->Ok_0.1;
    lemma_decode_one_consumes(data);
    let e = data.subrange(0, k) + x;
    assert(agree_before(data, e, k)) by {
        assert forall|j: int| 0 <= j < k implies #[trigger] e[j] == data[j] by {}
    }
    lemma_decode_one_agree(data, e);
}

proof fn lemma_decode_all_concat(a: Seq<u8>, b: Seq<u8>)
    requires
        spec_decode_all(a) is Ok,
        spec_decode_all(b) is Ok,
    ensures
        spec_decode_all(a + b) == Ok::<Seq<RespModel>, RespErrorModel>(
            spec_decode_all(a)->Ok_0 + spec_decode_all(b)->Ok_0,
        ),
    decreases a.len(),
{
    if a.len() == 0 {
        assert(a + b =~= b);
        assert(spec_decode_all(a)->Ok_0 + spec_decode_all(b)->Ok_0 =~= spec_decode_all(b)->Ok_0);
    } else {
        let (v, k) = spec_decode_one(a)->Ok_0;
        let ab = a + b;
        lemma_decode_one_consumes(a);
        assert(agree_before(a, ab, k)) by {
            assert forall|j: int| 0 <= j < k implies #[trigger] ab[j] == a[j] by {}
        }
        lemma_decode_one_agree(a, ab);
        let rest = a.subrange(k, a.len() as int);
        lemma_decode_all_concat(rest, b);
        assert(ab.subrange(k, ab.len() as int) =~= rest + b);
        let va = spec_decode_all(a)->Ok_0;
        let vr = spec_decode_all(rest)->Ok_0;
        let vb = spec_decode_all(b)->Ok_0;
        assert(seq![v] + (vr + vb) =~= va + vb);
    }
}

/// Decoding two byte strings one after the other gives the values of the first
/// and then those of the second; and what decodes gives at least one value.
pub proof fn law_decode_concat(a: Seq<u8>, b: Seq<u8>)
    requires
        spec_decode(a) is Ok,
        spec_decode(b) is Ok,
    ensures
        spec_decode(a + b) == Ok::<Seq<RespModel>, RespErrorModel>(
            spec_decode(a)->Ok_0 + spec_decode(b)->Ok_0,
        ),
        spec_decode(a)->Ok_0.len() >= 1,
{
    lemma_decode_all_concat(a, b);
    let (v, k) = spec_decode_one(a)->Ok_0;
    assert(spec_decode(a)->Ok_0[0] == v);
}

} // verus!
