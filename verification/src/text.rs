use vstd::prelude::*;
use vstd::utf8::*;

verus! {

// ---------------------------------------------------------------------------
// Bytes and characters
// ---------------------------------------------------------------------------

/// The two bytes `\r\n` that end every RESP line.
pub open spec fn crlf() -> Seq<u8> {
    seq![13u8, 10u8]
}

/// Every byte is below 0x80.
pub open spec fn all_ascii(b: Seq<u8>) -> bool {
    forall|i: int| 0 <= i < b.len() ==> #[trigger] b[i] < 128
}

/// The characters that ASCII bytes stand for, one per byte.
pub open spec fn ascii_chars(b: Seq<u8>) -> Seq<char> {
    b.map_values(|x: u8| x as char)
}

/// ASCII bytes are valid UTF-8 and decode to one character per byte.
pub proof fn lemma_ascii_utf8(b: Seq<u8>)
    requires
        all_ascii(b),
    ensures
        valid_utf8(b),
        decode_utf8(b) == ascii_chars(b),
    decreases b.len(),
{
    if b.len() > 0 {
        let x = b[0];
        assert(x < 128);
        assert(x & 0x7f == x) by (bit_vector)
            requires
                x < 128,
        ;
        assert(is_leading_byte_width_1(x));
        assert(valid_first_scalar(b));
        let rest = pop_first_scalar(b);
        assert(rest =~= b.subrange(1, b.len() as int));
        assert(all_ascii(rest)) by {
            assert forall|i: int| 0 <= i < rest.len() implies #[trigger] rest[i] < 128 by {
                assert(rest[i] == b[i + 1]);
            }
        }
        lemma_ascii_utf8(rest);
        assert(decode_first_scalar(b) == x as u32);
        assert(decode_utf8(b) =~= ascii_chars(b)) by {
            assert(decode_utf8(b) == seq![decode_first_scalar(b) as char] + decode_utf8(rest));
            assert forall|i: int| 0 <= i < b.len() implies decode_utf8(b)[i] == ascii_chars(b)[i] by {
                if i > 0 {
                    assert(decode_utf8(b)[i] == decode_utf8(rest)[i - 1]);
                    assert(ascii_chars(rest)[i - 1] == ascii_chars(b)[i]);
                }
            }
        }
    } else {
        assert(decode_utf8(b) =~= ascii_chars(b));
    }
}

// ---------------------------------------------------------------------------
// Decimal text
// ---------------------------------------------------------------------------

/// The decimal digits of `n`, most significant first, with no leading zero
/// (zero itself is the single digit `0`).
pub open spec fn dec_digits(n: nat) -> Seq<u8>
    decreases n,
{
    if n < 10 {
        seq![(48 + n) as u8]
    } else {
        dec_digits(n / 10).push((48 + n % 10) as u8)
    }
}

/// The decimal text of a signed integer: a `-` before the digits of a negative one.
pub open spec fn int_text(n: i64) -> Seq<u8> {
    if n < 0 {
        seq![45u8] + dec_digits((-n) as nat)
    } else {
        dec_digits(n as nat)
    }
}

/// A character in `0..=9`.
pub open spec fn is_digit(c: char) -> bool {
    '0' <= c && c <= '9'
}

/// Every character is a decimal digit.
pub open spec fn all_digits(s: Seq<char>) -> bool {
    forall|i: int| 0 <= i < s.len() ==> #[trigger] is_digit(s[i])
}

/// The number that a run of decimal digits spells.
pub open spec fn digits_value(s: Seq<char>) -> nat
    decreases s.len(),
{
    if s.len() == 0 {
        0
    } else {
        digits_value(s.drop_last()) * 10 + ((s.last() as u32) as nat - 48) as nat
    }
}

/// What parsing `s` as a `usize` gives, as Rust's `str::parse` does it: an
/// optional `+`, then at least one digit, and a value that fits.
pub open spec fn spec_parse_usize(s: Seq<char>) -> Option<usize> {
    let body = if s.len() > 0 && s[0] == '+' {
        s.skip(1)
    } else {
        s
    };
    if body.len() > 0 && all_digits(body) && digits_value(body) <= usize::MAX {
        Some(digits_value(body) as usize)
    } else {
        None
    }
}

/// What parsing `s` as an `i64` gives, as Rust's `str::parse` does it: an
/// optional sign, then at least one digit, and a value that fits.
pub open spec fn spec_parse_i64(s: Seq<char>) -> Option<i64> {
    let neg = s.len() > 0 && s[0] == '-';
    let body = if s.len() > 0 && (s[0] == '+' || s[0] == '-') {
        s.skip(1)
    } else {
        s
    };
    if body.len() > 0 && all_digits(body) {
        let v = digits_value(body);
        if neg && v <= 0x8000_0000_0000_0000 {
            Some((-v) as i64)
        } else if !neg && v <= 0x7fff_ffff_ffff_ffff {
            Some(v as i64)
        } else {
            None
        }
    } else {
        None
    }
}

proof fn lemma_digit_char(x: u8)
    ensures
        (x as char) as u32 == x as u32,
{
    vstd::utf8::char_u32_cast(x as char, x as u32);
}

proof fn lemma_dec_digits_shape(n: nat)
    ensures
        dec_digits(n).len() >= 1,
        all_ascii(dec_digits(n)),
        all_digits(ascii_chars(dec_digits(n))),
        digits_value(ascii_chars(dec_digits(n))) == n,
        forall|i: int|
            0 <= i < dec_digits(n).len() ==> 48 <= #[trigger] dec_digits(n)[i] <= 57,
    decreases n,
{
    let d = dec_digits(n);
    if n < 10 {
        assert(ascii_chars(d).drop_last() =~= Seq::<char>::empty());
        lemma_digit_char((48 + n) as u8);
        assert(ascii_chars(d).last() == ((48 + n) as u8) as char);
        assert(digits_value(ascii_chars(d)) == digits_value(ascii_chars(d).drop_last()) * 10 + ((
        ascii_chars(d).last() as u32) as nat - 48) as nat);
    } else {
        lemma_dec_digits_shape(n / 10);
        let p = dec_digits(n / 10);
        assert(ascii_chars(d).drop_last() =~= ascii_chars(p));
        lemma_digit_char((48 + n % 10) as u8);
        assert(ascii_chars(d).last() == ((48 + n % 10) as u8) as char);
        assert(digits_value(ascii_chars(d)) == digits_value(ascii_chars(d).drop_last()) * 10 + ((
        ascii_chars(d).last() as u32) as nat - 48) as nat);
        assert(n == (n / 10) * 10 + n % 10) by (nonlinear_arith);
        assert forall|i: int| 0 <= i < d.len() implies 48 <= #[trigger] d[i] <= 57 by {
            if i < p.len() {
                assert(d[i] == p[i]);
            }
        }
        assert(all_digits(ascii_chars(d))) by {
            assert forall|i: int| 0 <= i < ascii_chars(d).len() implies #[trigger] is_digit(
                ascii_chars(d)[i],
            ) by {
                assert(48 <= d[i] <= 57);
            }
        }
    }
}

/// The digits of `n` are ASCII, parse back to `n`, and hold no `\r`.
pub proof fn lemma_dec_digits(n: nat)
    ensures
        dec_digits(n).len() >= 1,
        all_ascii(dec_digits(n)),
        valid_utf8(dec_digits(n)),
        decode_utf8(dec_digits(n)) == ascii_chars(dec_digits(n)),
        all_digits(ascii_chars(dec_digits(n))),
        digits_value(ascii_chars(dec_digits(n))) == n,
        forall|i: int|
            0 <= i < dec_digits(n).len() ==> 48 <= #[trigger] dec_digits(n)[i] <= 57,
{
    lemma_dec_digits_shape(n);
    lemma_ascii_utf8(dec_digits(n));
}

/// Appends the decimal digits of `n`.
pub fn push_decimal(buf: &mut Vec<u8>, n: u64)
    ensures
        final(buf)@ == old(buf)@ + dec_digits(n as nat),
    decreases n,
{
    if n >= 10 {
        push_decimal(buf, n / 10);
    }
    let d: u8 = (n % 10) as u8;
    buf.push(48 + d);
    proof {
        if n >= 10 {
            assert(dec_digits(n as nat) == dec_digits((n / 10) as nat).push((48 + n % 10) as u8));
        }
    }
    assert(final(buf)@ =~= old(buf)@ + dec_digits(n as nat));
}

/// Appends the decimal text of `n`.
pub fn push_int_text(buf: &mut Vec<u8>, n: i64)
    ensures
        final(buf)@ == old(buf)@ + int_text(n),
{
    if n < 0 {
        buf.push(45);
        let m: u64 = (-(n as i128)) as u64;
        push_decimal(buf, m);
        assert(final(buf)@ =~= old(buf)@ + int_text(n));
    } else {
        push_decimal(buf, n as u64);
    }
}

/// Appends every byte of `b`.
pub fn push_bytes(buf: &mut Vec<u8>, b: &[u8])
    ensures
        final(buf)@ == old(buf)@ + b@,
{
    let ghost start = buf@;
    let mut i: usize = 0;
    while i < b.len()
        invariant
            i <= b@.len(),
            buf@ == start + b@.subrange(0, i as int),
        decreases b@.len() - i,
    {
        buf.push(b[i]);
        i = i + 1;
        assert(buf@ =~= start + b@.subrange(0, i as int));
    }
    assert(b@.subrange(0, b@.len() as int) =~= b@);
}

// ---------------------------------------------------------------------------
// Integer parsing
// ---------------------------------------------------------------------------

proof fn lemma_digits_value_step(s: Seq<char>, a: int, i: int)
    requires
        0 <= a <= i < s.len(),
    ensures
        digits_value(s.subrange(a, i + 1)) == digits_value(s.subrange(a, i)) * 10 + ((s[i] as u32) as nat
            - 48) as nat,
{
    assert(s.subrange(a, i + 1).drop_last() =~= s.subrange(a, i));
}

proof fn lemma_digits_value_mono(s: Seq<char>, a: int, i: int, j: int)
    requires
        0 <= a <= i <= j <= s.len(),
        all_digits(s.subrange(a, j)),
    ensures
        digits_value(s.subrange(a, i)) <= digits_value(s.subrange(a, j)),
    decreases j - i,
{
    if i < j {
        lemma_digits_value_mono(s, a, i, j - 1);
        lemma_digits_value_step(s, a, j - 1);
        assert(is_digit(s.subrange(a, j)[j - 1 - a]));
    }
}

/// Reads the decimal digits of `s` from position `start` on, giving `None` when a
/// character is not a digit or the value goes above `limit`.
fn parse_digits(s: &str, start: usize, limit: u128) -> (r: Option<u128>)
    requires
        start <= s@.len(),
        limit <= 0xffff_ffff_ffff_ffff,
    ensures
        r matches Some(v) ==> all_digits(s@.skip(start as int)) && v == digits_value(
            s@.skip(start as int),
        ) && v <= limit,
        r is None ==> !(all_digits(s@.skip(start as int)) && digits_value(s@.skip(start as int))
            <= limit),
{
    let n = s.unicode_len();
    let mut v: u128 = 0;
    let mut i: usize = start;
    assert(s@.subrange(start as int, start as int) =~= Seq::<char>::empty());
    while i < n
        invariant
            n == s@.len(),
            start <= i <= n,
            limit <= 0xffff_ffff_ffff_ffff,
            all_digits(s@.subrange(start as int, i as int)),
            v == digits_value(s@.subrange(start as int, i as int)),
            v <= limit,
        decreases n - i,
    {
        let c = s.get_char(i);
        if !('0' <= c && c <= '9') {
            proof {
                assert(s@.skip(start as int)[i - start] == c);
                assert(!is_digit(s@.skip(start as int)[i - start]));
            }
            return None;
        }
        proof {
            lemma_digits_value_step(s@, start as int, i as int);
            assert forall|k: int| 0 <= k < i + 1 - start implies #[trigger] is_digit(
                s@.subrange(start as int, i + 1)[k],
            ) by {
                if k < i - start {
                    assert(s@.subrange(start as int, i + 1)[k] == s@.subrange(
                        start as int,
                        i as int,
                    )[k]);
                }
            }
        }
        let d: u128 = (c as u32 - 48) as u128;
        v = v * 10 + d;
        i = i + 1;
        if v > limit {
            proof {
                if all_digits(s@.skip(start as int)) {
                    assert(s@.skip(start as int) =~= s@.subrange(start as int, n as int));
                    lemma_digits_value_mono(s@, start as int, i as int, n as int);
                }
            }
            return None;
        }
    }
    assert(s@.skip(start as int) =~= s@.subrange(start as int, n as int));
    Some(v)
}

/// Parses `s` as a `usize`, as `str::parse::<usize>` does.
pub fn parse_usize(s: &str) -> (r: Option<usize>)
    ensures
        r == spec_parse_usize(s@),
{
    let n = s.unicode_len();
    if n == 0 {
        return None;
    }
    let mut start: usize = 0;
    if s.get_char(0) == '+' {
        start = 1;
    }
    if start == n {
        return None;
    }
    proof {
        if start == 0 {
            assert(s@.skip(0) =~= s@);
        }
    }
    let limit: u128 = usize::MAX as u128;
    match parse_digits(s, start, limit) {
        Some(v) => Some(v as usize),
        None => None,
    }
}

/// Parses `s` as an `i64`, as `str::parse::<i64>` does.
pub fn parse_i64(s: &str) -> (r: Option<i64>)
    ensures
        r == spec_parse_i64(s@),
{
    let n = s.unicode_len();
    if n == 0 {
        return None;
    }
    let first = s.get_char(0);
    let neg = first == '-';
    let mut start: usize = 0;
    if first == '+' || first == '-' {
        start = 1;
    }
    if start == n {
        return None;
    }
    proof {
        if start == 0 {
            assert(s@.skip(0) =~= s@);
        }
    }
    let limit: u128 = if neg {
        0x8000_0000_0000_0000
    } else {
        0x7fff_ffff_ffff_ffff
    };
    match parse_digits(s, start, limit) {
        Some(v) => {
            if neg {
                Some((-(v as i128)) as i64)
            } else {
                Some(v as i64)
            }
        },
        None => None,
    }
}

// ---------------------------------------------------------------------------
// String helpers
// ---------------------------------------------------------------------------

/// Whether two strings hold the same characters.
pub fn str_eq(a: &str, b: &str) -> (r: bool)
    ensures
        r == (a@ == b@),
{
    let n = a.unicode_len();
    let m = b.unicode_len();
    if n != m {
        return false;
    }
    let mut i: usize = 0;
    while i < n
        invariant
            n == a@.len(),
            m == b@.len(),
            n == m,
            i <= n,
            forall|k: int| 0 <= k < i ==> a@[k] == b@[k],
        decreases n - i,
    {
        if a.get_char(i) != b.get_char(i) {
            return false;
        }
        i = i + 1;
    }
    assert(a@ =~= b@);
    true
}

/// What `str::to_lowercase` gives for a string: the Unicode lowercase mapping
/// applied to each character.
pub uninterp spec fn lowercase(s: Seq<char>) -> Seq<char>;

/// What `String::from_utf8_lossy` gives for some bytes: their UTF-8 decoding,
/// with each malformed part replaced by U+FFFD.
pub uninterp spec fn utf8_lossy(b: Seq<u8>) -> Seq<char>;

/// The text that lossy UTF-8 decoding gives: the plain decoding of valid UTF-8,
/// and otherwise the name `utf8_lossy` of the bytes.
pub open spec fn lossy_text(b: Seq<u8>) -> Seq<char> {
    if valid_utf8(b) {
        decode_utf8(b)
    } else {
        utf8_lossy(b)
    }
}

/// Whether every character is ASCII.
pub open spec fn is_ascii_text(s: Seq<char>) -> bool {
    forall|i: int| 0 <= i < s.len() ==> (#[trigger] s[i] as u32) < 128
}

/// ASCII lowercasing: `A`..`Z` become `a`..`z`, every other character stays.
pub open spec fn ascii_lower(s: Seq<char>) -> Seq<char> {
    Seq::new(
        s.len(),
        |i: int|
            if 65 <= (s[i] as u32) <= 90 {
                ((s[i] as u32) + 32) as char
            } else {
                s[i]
            },
    )
}

/// Calls `str::to_lowercase`. Its result is the name `lowercase` of the
/// characters. The one further claim: on ASCII text the Unicode lowercase mapping
/// is the ASCII one, `A`..`Z` to `a`..`z` and every other character unchanged.
#[verifier::external_body]
pub(crate) fn to_lowercase(s: &str) -> (r: String)
    ensures
        r@ == lowercase(s@),
        is_ascii_text(s@) ==> r@ == ascii_lower(s@),
{
    s.to_lowercase()
}

/// Calls `std::str::from_utf8`. As its documentation states, it succeeds exactly
/// on valid UTF-8, and then the string holds the characters the bytes encode.
#[verifier::external_body]
pub(crate) fn str_from_utf8(b: &[u8]) -> (r: Option<&str>)
    ensures
        r is Some <==> valid_utf8(b@),
        r matches Some(s) ==> s@ == decode_utf8(b@),
{
    std::str::from_utf8(b).ok()
}

/// Calls `String::from_utf8_lossy` and takes an owned copy. The result is the name
/// `utf8_lossy` of the bytes; on valid UTF-8 it is, as documented, the plain decoding.
#[verifier::external_body]
pub(crate) fn string_from_utf8_lossy(b: &[u8]) -> (r: String)
    ensures
        r@ == utf8_lossy(b@),
        valid_utf8(b@) ==> r@ == decode_utf8(b@),
        r@ == lossy_text(b@),
{
    String::from_utf8_lossy(b).to_string()
}

} // verus!
