use vstd::prelude::*;

use crate::resp::{is_crlf_at, views, ProtocolError, Resp, RespValue};

verus! {

/// What a buffer holds at some position, as far as one value goes.
pub enum Parsed {
    /// The bytes start a value but do not yet hold all of it.
    Incomplete,
    /// The bytes cannot start any value.
    Invalid(ProtocolError),
    /// A whole value, and the position just past it.
    Complete(int, Resp),
}

/// The first CR LF pair at or after `from`.
pub open spec fn find_crlf(b: Seq<u8>, from: int) -> Option<int>
    decreases b.len() - from,
{
    if from < 0 || from + 1 >= b.len() {
        None
    } else if is_crlf_at(b, from) {
        Some(from)
    } else {
        find_crlf(b, from + 1)
    }
}

pub proof fn lemma_find_crlf(b: Seq<u8>, from: int)
    requires
        0 <= from,
    ensures
        match find_crlf(b, from) {
            Some(i) => from <= i && i + 1 < b.len() && is_crlf_at(b, i) && forall|j: int|
                from <= j < i ==> !#[trigger] is_crlf_at(b, j),
            None => forall|j: int| from <= j ==> !#[trigger] is_crlf_at(b, j),
        },
    decreases b.len() - from,
{
    if from + 1 < b.len() && !is_crlf_at(b, from) {
        lemma_find_crlf(b, from + 1);
    }
}

pub open spec fn is_digit(c: u8) -> bool {
    48 <= c <= 57
}

pub open spec fn all_digits(s: Seq<u8>) -> bool {
    forall|i: int| 0 <= i < s.len() ==> is_digit(#[trigger] s[i])
}

pub open spec fn digits_value(s: Seq<u8>) -> nat
    decreases s.len(),
{
    if s.len() == 0 {
        0
    } else {
        digits_value(s.drop_last()) * 10 + (s.last() - 48) as nat
    }
}

/// The integer that decimal text denotes (digits, after an optional '-'),
/// when it fits in 64 signed bits.
pub open spec fn decimal_value(s: Seq<u8>) -> Option<int> {
    let v = if s.len() > 0 && all_digits(s) {
        Some(digits_value(s) as int)
    } else if s.len() > 1 && s[0] == 45u8 && all_digits(s.drop_first()) {
        Some(-(digits_value(s.drop_first()) as int))
    } else {
        None
    };
    match v {
        Some(n) => if i64::MIN <= n <= i64::MAX {
            Some(n)
        } else {
            None
        },
        None => None,
    }
}

pub open spec fn is_type_byte(t: u8) -> bool {
    t == 43u8 || t == 45u8 || t == 58u8 || t == 36u8 || t == 42u8
}

/// What the bytes of `b` from `pos` on hold.
pub open spec fn parse_at(b: Seq<u8>, pos: int) -> Parsed
    decreases b.len() - pos, 0int, 0int,
{
    if pos < 0 || pos >= b.len() {
        Parsed::Incomplete
    } else if !is_type_byte(b[pos]) {
        Parsed::Invalid(ProtocolError::UnknownPrefix)
    } else {
        let t = b[pos];
        match find_crlf(b, pos + 1) {
            None => Parsed::Incomplete,
            Some(i) => {
                let line = b.subrange(pos + 1, i);
                if t == 43u8 {
                    Parsed::Complete(i + 2, Resp::Simple(line))
                } else if t == 45u8 {
                    Parsed::Complete(i + 2, Resp::Error(line))
                } else if t == 58u8 {
                    match decimal_value(line) {
                        Some(n) => Parsed::Complete(i + 2, Resp::Integer(n)),
                        None => Parsed::Invalid(ProtocolError::InvalidInteger),
                    }
                } else {
                    match decimal_value(line) {
                        None => Parsed::Invalid(ProtocolError::InvalidLength),
                        Some(n) => if n == -1 {
                            Parsed::Complete(
                                i + 2,
                                if t == 36u8 {
                                    Resp::NullBulk
                                } else {
                                    Resp::NullArray
                                },
                            )
                        } else if n < -1 {
                            Parsed::Invalid(ProtocolError::InvalidLength)
                        } else if t == 36u8 {
                            if i + 2 + n + 2 > b.len() {
                                Parsed::Incomplete
                            } else if !is_crlf_at(b, i + 2 + n) {
                                Parsed::Invalid(ProtocolError::MissingTerminator)
                            } else {
                                Parsed::Complete(
                                    i + 2 + n + 2,
                                    Resp::Bulk(b.subrange(i + 2, i + 2 + n)),
                                )
                            }
                        } else {
                            proof {
                                lemma_find_crlf(b, pos + 1);
                            }
                            parse_items(b, i + 2, n)
                        },
                    }
                }
            },
        }
    }
}

/// What the bytes of `b` from `pos` on hold, read as `count` values one after
/// the other; a whole result is an array of them. Each value takes at least one
/// byte, which the bound on `end` records.
pub open spec fn parse_items(b: Seq<u8>, pos: int, count: int) -> Parsed
    decreases b.len() - pos, 1int, count,
{
    if count <= 0 {
        Parsed::Complete(pos, Resp::Array(Seq::empty()))
    } else {
        match parse_at(b, pos) {
            Parsed::Complete(end, v) => if pos < end <= b.len() {
                match parse_items(b, end, count - 1) {
                    Parsed::Complete(e, Resp::Array(rest)) => Parsed::Complete(
                        e,
                        Resp::Array(seq![v] + rest),
                    ),
                    other => other,
                }
            } else {
                Parsed::Incomplete
            },
            other => other,
        }
    }
}

/// The outcome of a parse, as `RespValue::from_bytes` reports it.
pub open spec fn reports(r: Result<Option<(usize, RespValue)>, ProtocolError>, p: Parsed) -> bool {
    match r {
        Ok(Some((end, v))) => p == Parsed::Complete(end as int, v@),
        Ok(None) => p == Parsed::Incomplete,
        Err(e) => p == Parsed::Invalid(e),
    }
}

fn find_crlf_from(b: &[u8], from: usize) -> (r: Option<usize>)
    ensures
        match r {
            Some(i) => find_crlf(b@, from as int) == Some(i as int),
            None => find_crlf(b@, from as int) is None,
        },
        r matches Some(i) ==> from <= i && i + 1 < b.len(),
{
    let mut j = from;
    while j < b.len() && j + 1 < b.len()
        invariant
            from <= j,
            find_crlf(b@, from as int) == find_crlf(b@, j as int),
        decreases b.len() - j,
    {
        if b[j] == 13u8 && b[j + 1] == 10u8 {
            return Some(j);
        }
        j = j + 1;
    }
    None
}

proof fn lemma_digits_prefix(s: Seq<u8>, k: int)
    requires
        all_digits(s),
        0 <= k <= s.len(),
    ensures
        digits_value(s.subrange(0, k)) <= digits_value(s),
    decreases s.len(),
{
    if k == s.len() {
        assert(s.subrange(0, k) =~= s);
    } else {
        lemma_digits_prefix(s.drop_last(), k);
        assert(s.drop_last().subrange(0, k) =~= s.subrange(0, k));
    }
}

/// Reads the decimal number in `b[start..end]`.
fn parse_decimal(b: &[u8], start: usize, end: usize) -> (r: Option<i64>)
    requires
        start <= end <= b.len(),
    ensures
        match r {
            Some(n) => decimal_value(b@.subrange(start as int, end as int)) == Some(n as int),
            None => decimal_value(b@.subrange(start as int, end as int)) is None,
        },
{
    let ghost s = b@.subrange(start as int, end as int);
    let negative = start < end && b[start] == 45u8;
    let ds: usize = if negative {
        start + 1
    } else {
        start
    };
    let ghost d = b@.subrange(ds as int, end as int);
    assert(negative ==> s.drop_first() =~= d);
    assert(!negative ==> s =~= d);
    if ds >= end {
        return None;
    }
    let mut j: usize = ds;
    while j < end
        invariant
            ds <= j <= end <= b.len(),
            d == b@.subrange(ds as int, end as int),
            s == b@.subrange(start as int, end as int),
            negative ==> ds == start + 1 && b@[start as int] == 45u8 && s.drop_first() == d,
            !negative ==> ds == start && (start == end || b@[start as int] != 45u8) && s == d,
            forall|k: int| ds <= k < j ==> is_digit(#[trigger] b@[k]),
        decreases end - j,
    {
        if b[j] < 48u8 || b[j] > 57u8 {
            assert(!is_digit(d[j - ds]));
            assert(negative ==> !is_digit(s[j - start]));
            assert(!negative ==> !is_digit(s[j - start]));
            assert(negative ==> !is_digit(s.drop_first()[j - ds]));
            return None;
        }
        j = j + 1;
    }
    assert(all_digits(d));
    let mut acc: u128 = 0;
    let mut j: usize = ds;
    while j < end
        invariant
            ds <= j <= end <= b.len(),
            d == b@.subrange(ds as int, end as int),
            s == b@.subrange(start as int, end as int),
            negative ==> ds == start + 1 && b@[start as int] == 45u8 && s.drop_first() == d,
            !negative ==> ds == start && (start == end || b@[start as int] != 45u8) && s == d,
            all_digits(d),
            acc == digits_value(d.subrange(0, j - ds)),
            acc <= 0x8000_0000_0000_0000,
        decreases end - j,
    {
        assert(d.subrange(0, j + 1 - ds).drop_last() =~= d.subrange(0, j - ds));
        assert(is_digit(d[j - ds]));
        acc = acc * 10 + (b[j] - 48u8) as u128;
        j = j + 1;
        if acc > 0x8000_0000_0000_0000 {
            proof {
                lemma_digits_prefix(d, j - ds);
                assert(negative ==> !is_digit(s[0]));
            }
            return None;
        }
    }
    assert(d.subrange(0, end - ds) =~= d);
    if negative {
        assert(!is_digit(s[0]));
        Some((0i128 - acc as i128) as i64)
    } else if acc <= 0x7fff_ffff_ffff_ffff {
        Some(acc as i64)
    } else {
        None
    }
}

fn parse_value(b: &[u8], pos: usize) -> (r: Result<Option<(usize, RespValue)>, ProtocolError>)
    requires
        pos <= b.len(),
    ensures
        reports(r, parse_at(b@, pos as int)),
        r matches Ok(Some((end, _))) ==> pos < end <= b.len(),
    decreases b.len() - pos,
{
    if pos >= b.len() {
        return Ok(None);
    }
    let t = b[pos];
    if !(t == 43u8 || t == 45u8 || t == 58u8 || t == 36u8 || t == 42u8) {
        return Err(ProtocolError::UnknownPrefix);
    }
    let i = match find_crlf_from(b, pos + 1) {
        None => return Ok(None),
        Some(i) => i,
    };
    if t == 43u8 || t == 45u8 {
        let payload = vstd::slice::slice_to_vec(&b[pos + 1..i]);
        let v = if t == 43u8 {
            RespValue::SimpleString(payload)
        } else {
            RespValue::Error(payload)
        };
        return Ok(Some((i + 2, v)));
    }
    let n = match parse_decimal(b, pos + 1, i) {
        None => {
            return Err(
                if t == 58u8 {
                    ProtocolError::InvalidInteger
                } else {
                    ProtocolError::InvalidLength
                },
            )
        },
        Some(n) => n,
    };
    if t == 58u8 {
        return Ok(Some((i + 2, RespValue::Integer(n))));
    }
    if n == -1 {
        let v = if t == 36u8 {
            RespValue::NullBulkString
        } else {
            RespValue::NullArray
        };
        return Ok(Some((i + 2, v)));
    }
    if n < -1 {
        return Err(ProtocolError::InvalidLength);
    }
    let start = i + 2;
    if t == 36u8 {
        let available = b.len() - start;
        if (n as u64) + 2 > available as u64 {
            return Ok(None);
        }
        let stop = start + n as usize;
        if !(b[stop] == 13u8 && b[stop + 1] == 10u8) {
            return Err(ProtocolError::MissingTerminator);
        }
        let data = vstd::slice::slice_to_vec(&b[start..stop]);
        return Ok(Some((stop + 2, RespValue::BulkString(data))));
    }
    let count = n as u64;
    let mut items: Vec<RespValue> = Vec::new();
    let mut p: usize = start;
    let mut k: u64 = 0;
    assert(views(items@) =~= Seq::<Resp>::empty());
    while k < count
        invariant
            pos < start <= p <= b.len(),
            k <= count,
            count == n,
            parse_at(b@, pos as int) == parse_items(b@, start as int, count as int),
            parse_items(b@, start as int, count as int) == prefixed(
                views(items@),
                parse_items(b@, p as int, count - k),
            ),
        decreases count - k,
    {
        match parse_value(b, p) {
            Err(e) => return Err(e),
            Ok(None) => return Ok(None),
            Ok(Some((end, v))) => {
                let ghost vv = v@;
                let ghost old_items = views(items@);
                let ghost old_vec = items@;
                items.push(v);
                proof {
                    assert(items@.drop_last() =~= old_vec);
                    assert(views(items@) == old_items.push(vv));
                    let rest = parse_items(b@, end as int, count - k - 1);
                    if let Parsed::Complete(e2, Resp::Array(r2)) = rest {
                        assert(old_items + (seq![vv] + r2) =~= old_items.push(vv) + r2);
                    }
                }
                p = end;
                k = k + 1;
            },
        }
    }
    proof {
        assert(views(items@) + Seq::<Resp>::empty() =~= views(items@));
    }
    Ok(Some((p, RespValue::Array(items))))
}

/// Places `vs` before the items of an array result; other outcomes pass unchanged.
pub open spec fn prefixed(vs: Seq<Resp>, p: Parsed) -> Parsed {
    match p {
        Parsed::Complete(e, Resp::Array(rest)) => Parsed::Complete(e, Resp::Array(vs + rest)),
        other => other,
    }
}

impl RespValue {
    /// Reads one value from the front of `buffer`. `Ok(None)` says that the
    /// buffer holds the start of a value but not all of it yet; `Ok(Some((n, v)))`
    /// gives the value and the number of bytes it took.
    pub fn from_bytes(buffer: &[u8]) -> (r: Result<Option<(usize, RespValue)>, ProtocolError>)
        ensures
            reports(r, parse_at(buffer@, 0)),
            r matches Ok(Some((n, _))) ==> 0 < n <= buffer@.len(),
    {
        parse_value(buffer, 0)
    }
}

} // verus!
