use vstd::prelude::*;
use vstd::utf8::*;

use crate::text::{
    crlf, dec_digits, int_text, parse_i64, parse_usize, push_bytes, push_decimal, push_int_text,
    spec_parse_i64, spec_parse_usize, str_from_utf8, string_from_utf8_lossy, lossy_text,
};

verus! {

// ---------------------------------------------------------------------------
// Values and errors
// ---------------------------------------------------------------------------

/// A RESP value.
#[derive(Debug, PartialEq, Eq)]
pub enum RespValue {
    SimpleString(String),
    BulkString(String),
    Integer(i64),
    Array(Vec<RespValue>),
    Error(String),
}

/// Why RESP bytes could not be read.
#[derive(Debug, PartialEq, Eq)]
pub enum RespError {
    Empty,
    InvalidType(u8),
    Parse(String),
}

/// The mathematical content of a RESP value: strings as character sequences.
pub enum RespModel {
    SimpleString(Seq<char>),
    BulkString(Seq<char>),
    Integer(i64),
    Array(Seq<RespModel>),
    Error(Seq<char>),
}

/// The outcome of reading RESP bytes. `Abort` stands for the inputs on which the
/// reader cannot run to an answer (an index or a length past what a `usize` holds);
/// the executable readers exclude them by their preconditions and never return it.
pub enum RespErrorModel {
    Empty,
    InvalidType(u8),
    Parse(Seq<char>),
    Abort,
}

impl RespValue {
    pub open spec fn model(self) -> RespModel
        decreases self,
    {
        match self {
            RespValue::SimpleString(s) => RespModel::SimpleString(s@),
            RespValue::BulkString(s) => RespModel::BulkString(s@),
            RespValue::Integer(n) => RespModel::Integer(n),
            RespValue::Array(a) => RespModel::Array(
                Seq::new(a@.len(), |i: int| if 0 <= i < a@.len() { a@[i].model() } else { RespModel::Integer(0) }),
            ),
            RespValue::Error(s) => RespModel::Error(s@),
        }
    }
}

/// The models of a sequence of values.
pub open spec fn models(v: Seq<RespValue>) -> Seq<RespModel> {
    Seq::new(v.len(), |i: int| v[i].model())
}

impl RespError {
    pub open spec fn model(self) -> RespErrorModel {
        match self {
            RespError::Empty => RespErrorModel::Empty,
            RespError::InvalidType(b) => RespErrorModel::InvalidType(b),
            RespError::Parse(s) => RespErrorModel::Parse(s@),
        }
    }
}

/// The outcome of reading one value, as models.
pub open spec fn one_model(r: Result<(RespValue, usize), RespError>) -> Result<
    (RespModel, int),
    RespErrorModel,
> {
    match r {
        Ok((v, n)) => Ok((v.model(), n as int)),
        Err(e) => Err(e.model()),
    }
}

/// Whether an outcome is `Abort`.
pub open spec fn aborts<T>(r: Result<T, RespErrorModel>) -> bool {
    r matches Err(RespErrorModel::Abort)
}

pub open spec fn msg_missing_crlf() -> Seq<char> {
    "missing CRLF terminator"@
}

pub open spec fn msg_missing_length_crlf() -> Seq<char> {
    "missing length CRLF terminator"@
}

pub open spec fn msg_missing_payload_crlf() -> Seq<char> {
    "missing payload CRLF terminator"@
}

pub open spec fn msg_expected_array() -> Seq<char> {
    "expected array of strings"@
}

pub open spec fn msg_not_a_string() -> Seq<char> {
    "array element is not a string: "@
}

/// The reply `+OK\r\n`.
pub open spec fn ok_bytes() -> Seq<u8> {
    seq![43u8, 79u8, 75u8, 13u8, 10u8]
}

/// The null reply `$-1\r\n`.
pub open spec fn nil_bytes() -> Seq<u8> {
    seq![36u8, 45u8, 49u8, 13u8, 10u8]
}

/// The bytes `+OK\r\n`.
pub fn resp_ok() -> (r: Vec<u8>)
    ensures
        r@ == ok_bytes(),
{
    let mut v: Vec<u8> = Vec::new();
    v.push(43);
    v.push(79);
    v.push(75);
    v.push(13);
    v.push(10);
    assert(v@ =~= ok_bytes());
    v
}

/// The bytes `$-1\r\n`.
pub fn resp_nil() -> (r: Vec<u8>)
    ensures
        r@ == nil_bytes(),
{
    let mut v: Vec<u8> = Vec::new();
    v.push(36);
    v.push(45);
    v.push(49);
    v.push(13);
    v.push(10);
    assert(v@ =~= nil_bytes());
    v
}

// ---------------------------------------------------------------------------
// Reading: specification
// ---------------------------------------------------------------------------

/// Whether `\r\n` starts at `i`.
pub open spec fn crlf_at(d: Seq<u8>, i: int) -> bool {
    0 <= i && i + 1 < d.len() && d[i] == 13 && d[i + 1] == 10
}

/// The first position at or after `i` where `\r\n` starts.
pub open spec fn crlf_from(d: Seq<u8>, i: int) -> Option<int>
    decreases d.len() - i,
{
    if i < 0 || i + 1 >= d.len() {
        None
    } else if d[i] == 13 && d[i + 1] == 10 {
        Some(i)
    } else {
        crlf_from(d, i + 1)
    }
}

/// The first position where `\r\n` starts.
pub open spec fn spec_find_crlf(d: Seq<u8>) -> Option<int> {
    crlf_from(d, 0)
}

/// Reading a simple string: the text from `start` to the first `\r\n`.
pub open spec fn spec_read_simple_string(d: Seq<u8>, start: int) -> Result<
    (RespModel, int),
    RespErrorModel,
> {
    match spec_find_crlf(d) {
        None => Err(RespErrorModel::Parse(msg_missing_crlf())),
        Some(p) => if start > p {
            Err(RespErrorModel::Abort)
        } else {
            Ok((RespModel::SimpleString(lossy_text(d.subrange(start, p))), p + 2))
        },
    }
}

/// Reading an error: a simple string read from position 1, as an error.
pub open spec fn spec_read_error(d: Seq<u8>) -> Result<(RespModel, int), RespErrorModel> {
    match spec_read_simple_string(d, 1) {
        Ok((RespModel::SimpleString(s), n)) => Ok((RespModel::Error(s), n)),
        Ok((v, n)) => Ok((v, n)),
        Err(e) => Err(e),
    }
}

/// Reading an integer: the text between the type byte and the first `\r\n`, parsed
/// as an `i64`.
pub open spec fn spec_read_int_64(d: Seq<u8>) -> Result<(RespModel, int), RespErrorModel> {
    match spec_find_crlf(d) {
        None => Err(RespErrorModel::Parse(msg_missing_crlf())),
        Some(p) => if p < 1 {
            Err(RespErrorModel::Abort)
        } else if !valid_utf8(d.subrange(1, p)) {
            Err(RespErrorModel::InvalidType(d[0]))
        } else {
            match spec_parse_i64(decode_utf8(d.subrange(1, p))) {
                None => Err(RespErrorModel::Parse(decode_utf8(d.subrange(1, p)))),
                Some(v) => Ok((RespModel::Integer(v), p + 2)),
            }
        },
    }
}

/// The length field of a bulk string or an array: the text between the type byte
/// and the first `\r\n`, parsed as a `usize`; `Ok((p, n))` gives the position of
/// that `\r\n` and the length.
pub open spec fn spec_read_length(d: Seq<u8>) -> Result<(int, usize), RespErrorModel> {
    match spec_find_crlf(d) {
        None => Err(RespErrorModel::Parse(msg_missing_crlf())),
        Some(p) => if p < 1 {
            Err(RespErrorModel::Abort)
        } else if !valid_utf8(d.subrange(1, p)) {
            Err(RespErrorModel::InvalidType(d[0]))
        } else {
            match spec_parse_usize(decode_utf8(d.subrange(1, p))) {
                None => Err(RespErrorModel::Parse(msg_missing_length_crlf())),
                Some(n) => Ok((p, n)),
            }
        },
    }
}

/// Reading a bulk string: a length, `\r\n`, that many bytes of UTF-8, `\r\n`.
pub open spec fn spec_read_bulk_string(d: Seq<u8>) -> Result<(RespModel, int), RespErrorModel> {
    match spec_read_length(d) {
        Err(e) => Err(e),
        Ok((p, n)) => {
            let start = p + 2;
            let end = start + n;
            if end + 2 > usize::MAX {
                Err(RespErrorModel::Abort)
            } else if !(end + 2 <= d.len() && d[end] == 13 && d[end + 1] == 10) {
                Err(RespErrorModel::Parse(msg_missing_payload_crlf()))
            } else if !valid_utf8(d.subrange(start, end)) {
                Err(RespErrorModel::InvalidType(d[0]))
            } else {
                Ok((RespModel::BulkString(decode_utf8(d.subrange(start, end))), end + 2))
            }
        },
    }
}

/// Reading one value of any type, by its first byte.
pub open spec fn spec_decode_one(d: Seq<u8>) -> Result<(RespModel, int), RespErrorModel>
    decreases d.len(), 2int,
{
    if d.len() == 0 {
        Err(RespErrorModel::Empty)
    } else if d[0] == 43 {
        spec_read_simple_string(d, 1)
    } else if d[0] == 45 {
        spec_read_error(d)
    } else if d[0] == 58 {
        spec_read_int_64(d)
    } else if d[0] == 36 {
        spec_read_bulk_string(d)
    } else if d[0] == 42 {
        spec_read_array(d)
    } else {
        Err(RespErrorModel::InvalidType(d[0]))
    }
}

/// Reading an array: a count, `\r\n`, then that many values one after another.
pub open spec fn spec_read_array(d: Seq<u8>) -> Result<(RespModel, int), RespErrorModel>
    decreases d.len(), 1int,
{
    match spec_read_length(d) {
        Err(e) => Err(e),
        Ok((p, n)) => if p < 0 || p + 2 > d.len() {
            Err(RespErrorModel::Abort)
        } else {
            match spec_read_elems(d, p + 2, n as nat) {
                Err(e) => Err(e),
                Ok((items, end)) => Ok((RespModel::Array(items), end)),
            }
        },
    }
}

/// Reading `count` values one after another from position `pos`; gives them and
/// the position after the last.
pub open spec fn spec_read_elems(d: Seq<u8>, pos: int, count: nat) -> Result<
    (Seq<RespModel>, int),
    RespErrorModel,
>
    decreases d.len() - pos, count + 3,
{
    if count == 0 {
        Ok((seq![], pos))
    } else if pos < 0 || pos > d.len() {
        Err(RespErrorModel::Abort)
    } else {
        match spec_decode_one(d.subrange(pos, d.len() as int)) {
            Err(e) => Err(e),
            Ok((v, k)) => if k <= 0 || pos + k > d.len() {
                Err(RespErrorModel::Abort)
            } else {
                match spec_read_elems(d, pos + k, (count - 1) as nat) {
                    Err(e) => Err(e),
                    Ok((vs, end)) => Ok((seq![v] + vs, end)),
                }
            },
        }
    }
}


/// Reading values one after another until the bytes run out.
pub open spec fn spec_decode_all(d: Seq<u8>) -> Result<Seq<RespModel>, RespErrorModel>
    decreases d.len(),
{
    if d.len() == 0 {
        Ok(seq![])
    } else {
        match spec_decode_one(d) {
            Err(e) => Err(e),
            Ok((v, k)) => if k <= 0 || k > d.len() {
                Err(RespErrorModel::Abort)
            } else {
                match spec_decode_all(d.subrange(k, d.len() as int)) {
                    Err(e) => Err(e),
                    Ok(vs) => Ok(seq![v] + vs),
                }
            },
        }
    }
}

/// Reading all the values in some bytes; no bytes at all is an error.
pub open spec fn spec_decode(d: Seq<u8>) -> Result<Seq<RespModel>, RespErrorModel> {
    if d.len() == 0 {
        Err(RespErrorModel::Empty)
    } else {
        spec_decode_all(d)
    }
}

/// An array outcome whose first items are already known.
pub open spec fn array_after(done: Seq<RespModel>, rest: Result<(Seq<RespModel>, int), RespErrorModel>) -> Result<
    (RespModel, int),
    RespErrorModel,
> {
    match rest {
        Ok((vs, end)) => Ok((RespModel::Array(done + vs), end)),
        Err(e) => Err(e),
    }
}

/// A list outcome whose first items are already known.
pub open spec fn list_after(done: Seq<RespModel>, rest: Result<Seq<RespModel>, RespErrorModel>) -> Result<
    Seq<RespModel>,
    RespErrorModel,
> {
    match rest {
        Ok(vs) => Ok(done + vs),
        Err(e) => Err(e),
    }
}

/// The outcome of reading a list of values, as models.
pub open spec fn list_model(r: Result<Vec<RespValue>, RespError>) -> Result<Seq<RespModel>, RespErrorModel> {
    match r {
        Ok(v) => Ok(models(v@)),
        Err(e) => Err(e.model()),
    }
}

proof fn lemma_models_push(v: Seq<RespValue>, x: RespValue)
    ensures
        models(v.push(x)) == models(v).push(x.model()),
{
    assert(models(v.push(x)) =~= models(v).push(x.model()));
}

proof fn lemma_array_model(v: Vec<RespValue>)
    ensures
        RespValue::Array(v).model() == RespModel::Array(models(v@)),
{
    let m = RespValue::Array(v).model();
    assert(m is Array);
    assert(m->Array_0 =~= models(v@));
}

// ---------------------------------------------------------------------------
// Reading: implementation
// ---------------------------------------------------------------------------

/// What the first `\r\n` at or after `i` is: a `\r\n`, at or after `i`, with none
/// between `i` and it; and when there is none, there is none at or after `i`.
pub proof fn lemma_crlf_from(d: Seq<u8>, i: int)
    requires
        0 <= i,
    ensures
        crlf_from(d, i) matches Some(p) ==> i <= p && crlf_at(d, p) && forall|j: int|
            i <= j < p ==> !#[trigger] crlf_at(d, j),
        crlf_from(d, i) is None ==> forall|j: int| i <= j ==> !#[trigger] crlf_at(d, j),
    decreases d.len() - i,
{
    if i + 1 < d.len() && !(d[i] == 13 && d[i + 1] == 10) {
        lemma_crlf_from(d, i + 1);
    }
}

/// The first position where `\r\n` starts.
pub fn find_crlf(data: &[u8]) -> (r: Option<usize>)
    ensures
        match r {
            Some(i) => spec_find_crlf(data@) == Some(i as int),
            None => spec_find_crlf(data@) is None,
        },
        r matches Some(i) ==> crlf_at(data@, i as int),
{
    proof {
        lemma_crlf_from(data@, 0);
    }
    let n = data.len();
    let mut i: usize = 0;
    while n > 0 && i < n - 1
        invariant
            n == data@.len(),
            crlf_from(data@, 0) == crlf_from(data@, i as int),
        decreases n - i,
    {
        if data[i] == 13 && data[i + 1] == 10 {
            return Some(i);
        }
        i = i + 1;
    }
    None
}

/// The first position that a simple string's text starts at, when none is given.
pub open spec fn simple_string_start(start: Option<usize>) -> int {
    match start {
        Some(s) => s as int,
        None => 1,
    }
}

/// Reads a simple string: the text from the given position (1 by default) up to
/// the first `\r\n`, with malformed UTF-8 replaced.
pub fn read_simple_string(data: &[u8], data_slice_start_idx: Option<usize>) -> (r: Result<
    (RespValue, usize),
    RespError,
>)
    requires
        !aborts(spec_read_simple_string(data@, simple_string_start(data_slice_start_idx))),
    ensures
        one_model(r) == spec_read_simple_string(data@, simple_string_start(data_slice_start_idx)),
{
    let crlf_pos = match find_crlf(data) {
        None => {
            return Err(RespError::Parse(String::from_str("missing CRLF terminator")));
        },
        Some(p) => p,
    };
    let start_idx = match data_slice_start_idx {
        Some(s) => s,
        None => 1,
    };
    let text = string_from_utf8_lossy(&data[start_idx..crlf_pos]);
    assert(crlf_pos + 2 <= data.len());
    Ok((RespValue::SimpleString(text), crlf_pos + 2))
}

/// Reads an error: like a simple string, as an error value.
pub fn read_error(data: &[u8]) -> (r: Result<(RespValue, usize), RespError>)
    requires
        !aborts(spec_read_error(data@)),
    ensures
        one_model(r) == spec_read_error(data@),
{
    match read_simple_string(data, None) {
        Ok((RespValue::SimpleString(s), n)) => Ok((RespValue::Error(s), n)),
        Ok((v, n)) => Ok((v, n)),
        Err(e) => Err(e),
    }
}

/// Reads an integer: the text between the type byte and the first `\r\n`.
pub fn read_int_64(data: &[u8]) -> (r: Result<(RespValue, usize), RespError>)
    requires
        !aborts(spec_read_int_64(data@)),
    ensures
        one_model(r) == spec_read_int_64(data@),
{
    let crlf_pos = match find_crlf(data) {
        None => {
            return Err(RespError::Parse(String::from_str("missing CRLF terminator")));
        },
        Some(p) => p,
    };
    let digits = match str_from_utf8(&data[1..crlf_pos]) {
        None => {
            return Err(RespError::InvalidType(data[0]));
        },
        Some(s) => s,
    };
    match parse_i64(digits) {
        None => Err(RespError::Parse(digits.to_owned())),
        Some(v) => Ok((RespValue::Integer(v), crlf_pos + 2)),
    }
}

/// A failed read inside the reader: a RESP error, or an input on which reading
/// cannot run to an answer (`Abort` in the specification).
enum ReadFail {
    Resp(RespError),
    Abort,
}

spec fn fail_model(f: ReadFail) -> RespErrorModel {
    match f {
        ReadFail::Resp(e) => e.model(),
        ReadFail::Abort => RespErrorModel::Abort,
    }
}

spec fn one_outcome(r: Result<(RespValue, usize), ReadFail>) -> Result<(RespModel, int), RespErrorModel> {
    match r {
        Ok((v, n)) => Ok((v.model(), n as int)),
        Err(f) => Err(fail_model(f)),
    }
}

spec fn list_outcome(r: Result<Vec<RespValue>, ReadFail>) -> Result<Seq<RespModel>, RespErrorModel> {
    match r {
        Ok(v) => Ok(models(v@)),
        Err(f) => Err(fail_model(f)),
    }
}

/// The outcome of a read, with `Abort` left out.
fn surface<T>(r: Result<T, ReadFail>) -> (s: Result<T, RespError>)
    requires
        !(r matches Err(ReadFail::Abort)),
    ensures
        match r {
            Ok(x) => s == Ok::<T, RespError>(x),
            Err(ReadFail::Resp(e)) => s == Err::<T, RespError>(e),
            Err(ReadFail::Abort) => false,
        },
{
    match r {
        Ok(x) => Ok(x),
        Err(ReadFail::Resp(e)) => Err(e),
        Err(ReadFail::Abort) => Err(RespError::Empty),
    }
}

/// A `\r\n` found after the first byte of bytes whose first byte is not `\r`.
proof fn lemma_crlf_after_tag(d: Seq<u8>)
    requires
        d.len() > 0,
        d[0] != 13,
    ensures
        spec_find_crlf(d) matches Some(p) ==> p >= 1,
{
    lemma_crlf_from(d, 0);
}

/// Reads the length field of a bulk string or an array: the position of the first
/// `\r\n` and the number before it.
fn read_length(data: &[u8]) -> (r: Result<(usize, usize), ReadFail>)
    ensures
        match r {
            Ok((p, n)) => spec_read_length(data@) == Ok::<(int, usize), RespErrorModel>((p as int, n)),
            Err(e) => spec_read_length(data@) == Err::<(int, usize), RespErrorModel>(fail_model(e)),
        },
        r matches Ok((p, n)) ==> crlf_at(data@, p as int),
{
    let crlf_pos = match find_crlf(data) {
        None => {
            return Err(ReadFail::Resp(RespError::Parse(String::from_str("missing CRLF terminator"))));
        },
        Some(p) => p,
    };
    if crlf_pos < 1 {
        return Err(ReadFail::Abort);
    }
    let digits = match str_from_utf8(&data[1..crlf_pos]) {
        None => {
            return Err(ReadFail::Resp(RespError::InvalidType(data[0])));
        },
        Some(s) => s,
    };
    match parse_usize(digits) {
        None => Err(ReadFail::Resp(RespError::Parse(String::from_str("missing length CRLF terminator")))),
        Some(n) => Ok((crlf_pos, n)),
    }
}

fn read_bulk_string_checked(data: &[u8]) -> (r: Result<(RespValue, usize), ReadFail>)
    ensures
        one_outcome(r) == spec_read_bulk_string(data@),
{
    let (crlf_pos, len) = match read_length(data) {
        Err(e) => {
            return Err(e);
        },
        Ok(x) => x,
    };
    if (crlf_pos as u128) + 2 + (len as u128) + 2 > usize::MAX as u128 {
        return Err(ReadFail::Abort);
    }
    let payload_start_idx = crlf_pos + 2;
    let payload_end_idx = payload_start_idx + len;
    if !(payload_end_idx + 2 <= data.len() && data[payload_end_idx] == 13 && data[payload_end_idx
        + 1] == 10) {
        return Err(ReadFail::Resp(RespError::Parse(String::from_str("missing payload CRLF terminator"))));
    }
    match str_from_utf8(&data[payload_start_idx..payload_end_idx]) {
        None => Err(ReadFail::Resp(RespError::InvalidType(data[0]))),
        Some(s) => Ok((RespValue::BulkString(s.to_owned()), payload_end_idx + 2)),
    }
}

fn decode_one_checked(data: &[u8]) -> (r: Result<(RespValue, usize), ReadFail>)
    ensures
        one_outcome(r) == spec_decode_one(data@),
    decreases data@.len(), 2int,
{
    if data.len() == 0 {
        return Err(ReadFail::Resp(RespError::Empty));
    }
    let first = data[0];
    proof {
        if data@[0] != 13 {
            lemma_crlf_after_tag(data@);
        }
    }
    if first == 43 {
        match read_simple_string(data, None) {
            Ok(x) => Ok(x),
            Err(e) => Err(ReadFail::Resp(e)),
        }
    } else if first == 45 {
        match read_error(data) {
            Ok(x) => Ok(x),
            Err(e) => Err(ReadFail::Resp(e)),
        }
    } else if first == 58 {
        match read_int_64(data) {
            Ok(x) => Ok(x),
            Err(e) => Err(ReadFail::Resp(e)),
        }
    } else if first == 36 {
        read_bulk_string_checked(data)
    } else if first == 42 {
        read_array_checked(data)
    } else {
        Err(ReadFail::Resp(RespError::InvalidType(first)))
    }
}

fn read_array_checked(data: &[u8]) -> (r: Result<(RespValue, usize), ReadFail>)
    ensures
        one_outcome(r) == spec_read_array(data@),
    decreases data@.len(), 1int,
{
    let (crlf_pos, len) = match read_length(data) {
        Err(e) => {
            return Err(e);
        },
        Ok(x) => x,
    };
    let mut arr_len: usize = len;
    let mut vec: Vec<RespValue> = Vec::new();
    assert(crlf_pos + 2 <= data.len());
    let mut prev_delta: usize = crlf_pos + 2;
    proof {
        let r = spec_read_elems(data@, prev_delta as int, arr_len as nat);
        assert(array_after(models(vec@), r) == spec_read_array(data@)) by {
            assert(models(vec@) =~= Seq::<RespModel>::empty());
            if let Ok((vs, end)) = r {
                assert(models(vec@) + vs =~= vs);
            }
        }
    }
    while arr_len != 0
        invariant
            1 <= prev_delta <= data@.len(),
            array_after(models(vec@), spec_read_elems(data@, prev_delta as int, arr_len as nat))
                == spec_read_array(data@),
            data@.len() > 0,
        decreases arr_len,
    {
        let ghost done = models(vec@);
        let ghost d = data@;
        let sub = &data[prev_delta..data.len()];
        assert(sub@ == d.subrange(prev_delta as int, d.len() as int));
        match decode_one_checked(sub) {
            Err(e) => {
                return Err(e);
            },
            Ok((val, delta)) => {
                if delta == 0 || delta > sub.len() {
                    return Err(ReadFail::Abort);
                }
                let ghost rest_after = spec_read_elems(d, prev_delta + delta, (arr_len - 1) as nat);
                proof {
                    lemma_models_push(vec@, val);
                    match rest_after {
                        Ok((vs, end)) => {
                            assert(done.push(val.model()) + vs =~= done + (seq![val.model()] + vs));
                        },
                        Err(e) => {},
                    }
                }
                vec.push(val);
                prev_delta = prev_delta + delta;
                arr_len = arr_len - 1;
            },
        }
    }
    proof {
        lemma_array_model(vec);
        assert(models(vec@) + Seq::<RespModel>::empty() =~= models(vec@));
    }
    Ok((RespValue::Array(vec), prev_delta))
}

fn decode_checked(data: &[u8]) -> (r: Result<Vec<RespValue>, ReadFail>)
    ensures
        list_outcome(r) == spec_decode(data@),
{
    if data.len() == 0 {
        return Err(ReadFail::Resp(RespError::Empty));
    }
    let mut values: Vec<RespValue> = Vec::new();
    let mut rest: &[u8] = data;
    proof {
        assert(models(values@) =~= Seq::<RespModel>::empty());
        if let Ok(vs) = spec_decode_all(data@) {
            assert(models(values@) + vs =~= vs);
        }
    }
    while rest.len() > 0
        invariant
            list_after(models(values@), spec_decode_all(rest@)) == spec_decode(data@),
            data@.len() > 0,
        decreases rest@.len(),
    {
        let ghost done = models(values@);
        match decode_one_checked(rest) {
            Err(e) => {
                return Err(e);
            },
            Ok((val, delta)) => {
                if delta == 0 || delta > rest.len() {
                    return Err(ReadFail::Abort);
                }
                let next = &rest[delta..rest.len()];
                proof {
                    lemma_models_push(values@, val);
                    match spec_decode_all(next@) {
                        Ok(vs) => {
                            assert(done.push(val.model()) + vs =~= done + (seq![val.model()] + vs));
                        },
                        Err(e) => {},
                    }
                }
                values.push(val);
                rest = next;
            },
        }
    }
    proof {
        assert(models(values@) + Seq::<RespModel>::empty() =~= models(values@));
    }
    Ok(values)
}

/// Reads a bulk string: a length, `\r\n`, that many bytes of UTF-8, `\r\n`.
pub fn read_bulk_string(data: &[u8]) -> (r: Result<(RespValue, usize), RespError>)
    requires
        !aborts(spec_read_bulk_string(data@)),
    ensures
        one_model(r) == spec_read_bulk_string(data@),
{
    surface(read_bulk_string_checked(data))
}

/// Reads one value of any type, by its first byte.
pub fn decode_one(data: &[u8]) -> (r: Result<(RespValue, usize), RespError>)
    requires
        !aborts(spec_decode_one(data@)),
    ensures
        one_model(r) == spec_decode_one(data@),
{
    surface(decode_one_checked(data))
}

/// Reads an array: a count, `\r\n`, then that many values one after another.
pub fn read_array(data: &[u8]) -> (r: Result<(RespValue, usize), RespError>)
    requires
        !aborts(spec_read_array(data@)),
    ensures
        one_model(r) == spec_read_array(data@),
{
    surface(read_array_checked(data))
}

/// Reads all the values in some bytes, one after another.
pub fn decode(data: &[u8]) -> (r: Result<Vec<RespValue>, RespError>)
    requires
        !aborts(spec_decode(data@)),
    ensures
        list_model(r) == spec_decode(data@),
{
    surface(decode_checked(data))
}

/// Whether reading the bytes would meet a length that a `usize` cannot hold, where
/// the reader cannot run to an answer; `decode` and `decode_array_string` need it
/// false.
pub fn decode_aborts(data: &[u8]) -> (r: bool)
    ensures
        r == aborts(spec_decode(data@)),
{
    match decode_checked(data) {
        Err(ReadFail::Abort) => true,
        _ => false,
    }
}

// ---------------------------------------------------------------------------
// Commands: arrays of strings
// ---------------------------------------------------------------------------

/// What the derived `Debug` formatting prints for a value.
pub uninterp spec fn resp_debug(v: RespModel) -> Seq<char>;

/// Formats a value with its derived `Debug` implementation (`format!("{:?}")`).
/// The text is the name `resp_debug` of the value's model; nothing more is claimed.
#[verifier::external_body]
fn debug_text(v: &RespValue) -> (r: String)
    ensures
        r@ == resp_debug(v.model()),
{
    format!("{:?}", v)
}

/// The strings of an array's items from position `i` on; the first item that is not
/// a simple or bulk string is an error that names it.
pub open spec fn spec_strings_from(items: Seq<RespModel>, i: int) -> Result<Seq<Seq<char>>, RespErrorModel>
    decreases items.len() - i,
{
    if i < 0 || i >= items.len() {
        Ok(seq![])
    } else {
        match items[i] {
            RespModel::SimpleString(s) | RespModel::BulkString(s) => match spec_strings_from(items, i + 1) {
                Ok(rest) => Ok(seq![s] + rest),
                Err(e) => Err(e),
            },
            other => Err(RespErrorModel::Parse(msg_not_a_string() + resp_debug(other))),
        }
    }
}

/// The string lists of values from position `i` on; each must be an array of strings.
pub open spec fn spec_arrays_from(vals: Seq<RespModel>, i: int) -> Result<Seq<Seq<Seq<char>>>, RespErrorModel>
    decreases vals.len() - i,
{
    if i < 0 || i >= vals.len() {
        Ok(seq![])
    } else {
        match vals[i] {
            RespModel::Array(items) => match spec_strings_from(items, 0) {
                Err(e) => Err(e),
                Ok(ss) => match spec_arrays_from(vals, i + 1) {
                    Ok(rest) => Ok(seq![ss] + rest),
                    Err(e) => Err(e),
                },
            },
            _ => Err(RespErrorModel::Parse(msg_expected_array())),
        }
    }
}

/// Reading bytes as a list of commands, each an array of strings.
pub open spec fn spec_decode_array_string(d: Seq<u8>) -> Result<Seq<Seq<Seq<char>>>, RespErrorModel> {
    match spec_decode(d) {
        Err(e) => Err(e),
        Ok(vals) => spec_arrays_from(vals, 0),
    }
}

/// The characters of each string.
pub open spec fn string_views(v: Seq<String>) -> Seq<Seq<char>> {
    Seq::new(v.len(), |i: int| v[i]@)
}

/// The characters of each string of each list.
pub open spec fn string_lists_view(v: Seq<Vec<String>>) -> Seq<Seq<Seq<char>>> {
    Seq::new(v.len(), |i: int| string_views(v[i]@))
}

/// Reads bytes as a list of commands, each an array of strings.
#[verifier::loop_isolation(false)]
pub fn decode_array_string(data: &[u8]) -> (r: Result<Vec<Vec<String>>, RespError>)
    requires
        !aborts(spec_decode(data@)),
    ensures
        match r {
            Ok(v) => spec_decode_array_string(data@) == Ok::<Seq<Seq<Seq<char>>>, RespErrorModel>(
                string_lists_view(v@),
            ),
            Err(e) => spec_decode_array_string(data@) == Err::<Seq<Seq<Seq<char>>>, RespErrorModel>(
                e.model(),
            ),
        },
{
    let vals = match decode(data) {
        Err(e) => {
            return Err(e);
        },
        Ok(v) => v,
    };
    let ghost vm = models(vals@);
    let mut out: Vec<Vec<String>> = Vec::new();
    let mut i: usize = 0;
    while i < vals.len()
        invariant
            vm == models(vals@),
            i <= vals@.len(),
            spec_decode(data@) == Ok::<Seq<RespModel>, RespErrorModel>(vm),
            spec_arrays_from(vm, 0) == match spec_arrays_from(vm, i as int) {
                Ok(rest) => Ok::<Seq<Seq<Seq<char>>>, RespErrorModel>(string_lists_view(out@) + rest),
                Err(e) => Err(e),
            },
        decreases vals@.len() - i,
    {
        let items = match &vals[i] {
            RespValue::Array(items) => items,
            _ => {
                return Err(RespError::Parse(String::from_str("expected array of strings")));
            },
        };
        proof {
            lemma_array_model(*items);
        }
        let ghost im = models(items@);
        assert(vm[i as int] == RespModel::Array(im));
        let mut strs: Vec<String> = Vec::new();
        let mut j: usize = 0;
        proof {
            assert(string_views(strs@) =~= Seq::<Seq<char>>::empty());
            if let Ok(rest) = spec_strings_from(im, 0) {
                assert(string_views(strs@) + rest =~= rest);
            }
        }
        while j < items.len()
            invariant
                im == models(items@),
                j <= items@.len(),
                i < vm.len(),
                vm[i as int] == RespModel::Array(im),
                spec_strings_from(im, 0) == match spec_strings_from(im, j as int) {
                    Ok(rest) => Ok::<Seq<Seq<char>>, RespErrorModel>(string_views(strs@) + rest),
                    Err(e) => Err(e),
                },
            decreases items@.len() - j,
        {
            let ghost before = string_views(strs@);
            match &items[j] {
                RespValue::SimpleString(s) | RespValue::BulkString(s) => {
                    let c = s.clone();
                    proof {
                        assert(string_views(strs@.push(c)) =~= before.push(s@));
                        if let Ok(rest) = spec_strings_from(im, j + 1) {
                            assert(before.push(s@) + rest =~= before + (seq![s@] + rest));
                        }
                    }
                    strs.push(c);
                },
                other => {
                    let mut m = String::from_str("array element is not a string: ");
                    let t = debug_text(other);
                    m.append(t.as_str());
                    proof {
                        assert(im[j as int] == other.model());
                        let e = RespErrorModel::Parse(msg_not_a_string() + resp_debug(other.model()));
                        assert(m@ == msg_not_a_string() + resp_debug(other.model()));
                        assert(spec_strings_from(im, j as int) == Err::<Seq<Seq<char>>, RespErrorModel>(e));
                        assert(spec_strings_from(im, 0) == Err::<Seq<Seq<char>>, RespErrorModel>(e));
                        assert(spec_arrays_from(vm, i as int) == Err::<Seq<Seq<Seq<char>>>, RespErrorModel>(e));
                    }
                    return Err(RespError::Parse(m));
                },
            }
            j = j + 1;
        }
        proof {
            assert(string_views(strs@) + Seq::<Seq<char>>::empty() =~= string_views(strs@));
            let before = string_lists_view(out@);
            assert(string_lists_view(out@.push(strs)) =~= before.push(string_views(strs@)));
            if let Ok(rest) = spec_arrays_from(vm, i + 1) {
                assert(before.push(string_views(strs@)) + rest =~= before + (seq![string_views(strs@)] + rest));
            }
        }
        out.push(strs);
        i = i + 1;
    }
    proof {
        assert(string_lists_view(out@) + Seq::<Seq<Seq<char>>>::empty() =~= string_lists_view(out@));
    }
    Ok(out)
}

// ---------------------------------------------------------------------------
// Writing
// ---------------------------------------------------------------------------

/// The bytes of one value: a type byte, the text, `\r\n`; a bulk string carries its
/// byte length first. An array has no encoding of its own here and is written as
/// the null reply.
pub open spec fn spec_encode_one(v: RespModel) -> Seq<u8> {
    match v {
        RespModel::SimpleString(s) => seq![43u8] + encode_utf8(s) + crlf(),
        RespModel::BulkString(s) => seq![36u8] + dec_digits(encode_utf8(s).len()) + crlf()
            + encode_utf8(s) + crlf(),
        RespModel::Integer(n) => seq![58u8] + int_text(n) + crlf(),
        RespModel::Error(s) => seq![45u8] + encode_utf8(s) + crlf(),
        RespModel::Array(_) => nil_bytes(),
    }
}

/// The bytes of values written one after another.
pub open spec fn spec_encode_all(items: Seq<RespModel>) -> Seq<u8>
    decreases items.len(),
{
    if items.len() == 0 {
        seq![]
    } else {
        spec_encode_all(items.drop_last()) + spec_encode_one(items.last())
    }
}

/// The bytes of a value: an array is its items written one after another.
pub open spec fn spec_encode(v: RespModel) -> Seq<u8> {
    match v {
        RespModel::Array(items) => spec_encode_all(items),
        _ => spec_encode_one(v),
    }
}

/// The bulk strings of a command, one after another.
pub open spec fn spec_bulks(cmd: Seq<Seq<char>>) -> Seq<u8>
    decreases cmd.len(),
{
    if cmd.len() == 0 {
        seq![]
    } else {
        spec_bulks(cmd.drop_last()) + spec_encode_one(RespModel::BulkString(cmd.last()))
    }
}

/// The bytes of a command: an array header with the count, then each part as a
/// bulk string.
pub open spec fn spec_encode_cmd(cmd: Seq<Seq<char>>) -> Seq<u8> {
    seq![42u8] + dec_digits(cmd.len()) + crlf() + spec_bulks(cmd)
}

fn push_crlf(buf: &mut Vec<u8>)
    ensures
        final(buf)@ == old(buf)@ + crlf(),
{
    buf.push(13);
    buf.push(10);
    assert(final(buf)@ =~= old(buf)@ + crlf());
}

/// Appends the bytes of one value.
fn encode_one_into(buf: &mut Vec<u8>, v: &RespValue)
    ensures
        final(buf)@ == old(buf)@ + spec_encode_one(v.model()),
{
    let ghost start = buf@;
    match v {
        RespValue::SimpleString(s) => {
            buf.push(43);
            push_bytes(buf, s.as_str().as_bytes());
            push_crlf(buf);
            assert(buf@ =~= start + spec_encode_one(v.model()));
        },
        RespValue::BulkString(s) => {
            let b = s.as_str().as_bytes();
            buf.push(36);
            push_decimal(buf, b.len() as u64);
            push_crlf(buf);
            push_bytes(buf, b);
            push_crlf(buf);
            assert(buf@ =~= start + spec_encode_one(v.model()));
        },
        RespValue::Integer(n) => {
            buf.push(58);
            push_int_text(buf, *n);
            push_crlf(buf);
            assert(buf@ =~= start + spec_encode_one(v.model()));
        },
        RespValue::Error(s) => {
            buf.push(45);
            push_bytes(buf, s.as_str().as_bytes());
            push_crlf(buf);
            assert(buf@ =~= start + spec_encode_one(v.model()));
        },
        RespValue::Array(_) => {
            let nil = resp_nil();
            push_bytes(buf, nil.as_slice());
        },
    }
}

/// The bytes of one value. Writing never fails.
pub fn encode_one(data: RespValue) -> (r: Result<Vec<u8>, RespError>)
    ensures
        r matches Ok(b) && b@ == spec_encode_one(data.model()),
{
    let mut buf: Vec<u8> = Vec::new();
    encode_one_into(&mut buf, &data);
    assert(buf@ =~= spec_encode_one(data.model()));
    Ok(buf)
}

/// The bytes of a value; an array is its items written one after another.
/// Writing never fails.
pub fn encode(data: RespValue) -> (r: Result<Vec<u8>, RespError>)
    ensures
        r matches Ok(b) && b@ == spec_encode(data.model()),
{
    match data {
        RespValue::Array(arr) => {
            proof {
                lemma_array_model(arr);
            }
            let ghost m = models(arr@);
            let mut buf: Vec<u8> = Vec::new();
            let mut i: usize = 0;
            while i < arr.len()
                invariant
                    m == models(arr@),
                    i <= arr@.len(),
                    buf@ == spec_encode_all(m.subrange(0, i as int)),
                decreases arr@.len() - i,
            {
                encode_one_into(&mut buf, &arr[i]);
                proof {
                    assert(m.subrange(0, i + 1).drop_last() =~= m.subrange(0, i as int));
                }
                i = i + 1;
            }
            assert(m.subrange(0, arr@.len() as int) =~= m);
            Ok(buf)
        },
        other => encode_one(other),
    }
}

/// The bytes of a command: an array header with the count, then each part as a
/// bulk string. Writing never fails.
pub fn encode_cmd(cmd: Vec<String>) -> (r: Result<Vec<u8>, RespError>)
    ensures
        r matches Ok(b) && b@ == spec_encode_cmd(string_views(cmd@)),
{
    let ghost c = string_views(cmd@);
    let mut buf: Vec<u8> = Vec::new();
    buf.push(42);
    push_decimal(&mut buf, cmd.len() as u64);
    push_crlf(&mut buf);
    let ghost head = buf@;
    let mut i: usize = 0;
    assert(c.subrange(0, 0) =~= Seq::<Seq<char>>::empty());
    assert(buf@ =~= head + spec_bulks(c.subrange(0, 0)));
    while i < cmd.len()
        invariant
            c == string_views(cmd@),
            i <= cmd@.len(),
            buf@ == head + spec_bulks(c.subrange(0, i as int)),
        decreases cmd@.len() - i,
    {
        let part = cmd[i].clone();
        encode_one_into(&mut buf, &RespValue::BulkString(part));
        proof {
            assert(c.subrange(0, i + 1).drop_last() =~= c.subrange(0, i as int));
            assert(buf@ =~= head + spec_bulks(c.subrange(0, i + 1)));
        }
        i = i + 1;
    }
    assert(c.subrange(0, cmd@.len() as int) =~= c);
    assert(buf@ =~= spec_encode_cmd(c));
    Ok(buf)
}

} // verus!
